//! The report renderer: turns the records into one HTML document with a
//! colored table. Which color and text every cell gets, and what the
//! provenance links to, is decided and built in verified code; bytes that
//! come from records or collaborators are HTML-escaped first, so that no
//! name or identifier can smuggle markup into the document. The HTML
//! itself is assembled by the `build_html` crate behind thin trusted
//! wrappers whose contracts speak of named cell, row, table and page
//! contents; the wrappers insert strings raw, so each requires its string
//! arguments free of markup, which keeps those names well defined.

use vstd::prelude::*;
use vstd::string::StrSliceExecFns;

use build_html::{Html, HtmlContainer, HtmlPage, Table, TableCell, TableRow};

use crate::record::{na_bytes, Record, RecordV};
use crate::status::OperatorStatus;
use crate::text::dec_digits;

verus! {

/// Whether the text holds none of the characters that open or close HTML
/// markup: no quote and no angle bracket.
pub open spec fn no_markup(s: Seq<char>) -> bool {
    forall|i: int|
        0 <= i < s.len() ==> (#[trigger] s[i]) != '"' && s[i] != '<' && s[i] != '>'
}

/// Whether the bytes hold none of the characters that open or close HTML
/// markup.
pub open spec fn no_markup_bytes(s: Seq<u8>) -> bool {
    forall|i: int|
        0 <= i < s.len() ==> (#[trigger] s[i]) != ('"' as u8) && s[i] != ('<' as u8) && s[i]
            != ('>' as u8)
}

proof fn lemma_no_markup_concat(a: Seq<char>, b: Seq<char>)
    requires
        no_markup(a),
        no_markup(b),
    ensures
        no_markup(a + b),
{
    assert forall|i: int| 0 <= i < (a + b).len() implies (#[trigger] (a + b)[i]) != '"' && (a
        + b)[i] != '<' && (a + b)[i] != '>' by {
        if i < a.len() {
            assert((a + b)[i] == a[i]);
        } else {
            assert((a + b)[i] == b[i - a.len()]);
        }
    }
}

proof fn lemma_no_markup_bytes_concat(a: Seq<u8>, b: Seq<u8>)
    requires
        no_markup_bytes(a),
        no_markup_bytes(b),
    ensures
        no_markup_bytes(a + b),
{
    assert forall|i: int| 0 <= i < (a + b).len() implies (#[trigger] (a + b)[i]) != ('"' as u8)
        && (a + b)[i] != ('<' as u8) && (a + b)[i] != ('>' as u8) by {
        if i < a.len() {
            assert((a + b)[i] == a[i]);
        } else {
            assert((a + b)[i] == b[i - a.len()]);
        }
    }
}

/// One byte's place in HTML text: the markup characters become entities,
/// everything else stands as it is.
pub open spec fn escape_byte(b: u8) -> Seq<u8> {
    if b == ('"' as u8) {
        seq![('&' as u8), ('q' as u8), ('u' as u8), ('o' as u8), ('t' as u8), (';' as u8)]
    } else if b == ('<' as u8) {
        seq![('&' as u8), ('l' as u8), ('t' as u8), (';' as u8)]
    } else if b == ('>' as u8) {
        seq![('&' as u8), ('g' as u8), ('t' as u8), (';' as u8)]
    } else {
        seq![b]
    }
}

/// The text with every markup character replaced by its entity.
pub open spec fn escape_html(s: Seq<u8>) -> Seq<u8>
    decreases s.len(),
{
    if s.len() == 0 {
        Seq::empty()
    } else {
        escape_html(s.drop_last()) + escape_byte(s.last())
    }
}

/// Escaping leaves no markup character behind.
pub proof fn lemma_escape_html_clean(s: Seq<u8>)
    ensures
        no_markup_bytes(escape_html(s)),
    decreases s.len(),
{
    if s.len() == 0 {
    } else {
        lemma_escape_html_clean(s.drop_last());
        assert(no_markup_bytes(escape_byte(s.last())));
        lemma_no_markup_bytes_concat(escape_html(s.drop_last()), escape_byte(s.last()));
    }
}

/// Escaping changes nothing in text already free of markup characters.
pub proof fn lemma_escape_html_identity(s: Seq<u8>)
    requires
        no_markup_bytes(s),
    ensures
        escape_html(s) == s,
    decreases s.len(),
{
    if s.len() == 0 {
        assert(escape_html(s) =~= s);
    } else {
        assert(no_markup_bytes(s.drop_last())) by {
            assert(forall|i: int|
                0 <= i < s.len() - 1 ==> (#[trigger] s[i]) != ('"' as u8) && s[i] != (
                '<' as u8) && s[i] != ('>' as u8));
        }
        lemma_escape_html_identity(s.drop_last());
        assert(s[s.len() - 1] != ('"' as u8) && s[s.len() - 1] != ('<' as u8) && s[s.len() - 1]
            != ('>' as u8));
        assert(escape_byte(s.last()) == seq![s.last()]);
        assert(escape_html(s) =~= s);
    }
}

/// Replaces every markup character with its entity.
pub fn escape_html_bytes(s: &Vec<u8>) -> (r: Vec<u8>)
    ensures
        r@ == escape_html(s@),
{
    let mut r: Vec<u8> = Vec::new();
    let n = s.len();
    let mut i: usize = 0;
    proof {
        assert(s@.take(0) =~= Seq::<u8>::empty());
        assert(r@ =~= escape_html(s@.take(0)));
    }
    while i < n
        invariant
            0 <= i <= n == s@.len(),
            r@ == escape_html(s@.take(i as int)),
        decreases n - i,
    {
        let ghost post = s@.take(i + 1 as int);
        proof {
            assert(post.drop_last() =~= s@.take(i as int));
            assert(post.last() == s@[i as int]);
        }
        let b = s[i];
        if b == ('"' as u8) {
            r.push('&' as u8);
            r.push('q' as u8);
            r.push('u' as u8);
            r.push('o' as u8);
            r.push('t' as u8);
            r.push(';' as u8);
        } else if b == ('<' as u8) {
            r.push('&' as u8);
            r.push('l' as u8);
            r.push('t' as u8);
            r.push(';' as u8);
        } else if b == ('>' as u8) {
            r.push('&' as u8);
            r.push('g' as u8);
            r.push('t' as u8);
            r.push(';' as u8);
        } else {
            r.push(b);
        }
        proof {
            assert(r@ =~= escape_html(s@.take(i as int)) + escape_byte(s@[i as int]));
        }
        i += 1;
    }
    proof {
        assert(s@.take(n as int) =~= s@);
    }
    r
}

/// Every status symbol and status style is free of markup characters.
proof fn lemma_status_text_clean()
    ensures
        forall|st: OperatorStatus| no_markup(#[trigger] st.spec_symbol()),
        forall|st: OperatorStatus| no_markup("color:"@ + st.spec_color()),
        forall|c: Option<CellColor>| no_markup(#[trigger] style_of_color(c)),
{
    assert(no_markup("&#8593"@)) by {
        reveal_strlit("&#8593");
        assert("&#8593"@ =~= seq!['&', '#', '8', '5', '9', '3']);
    }
    assert(no_markup("&#8595"@)) by {
        reveal_strlit("&#8595");
        assert("&#8595"@ =~= seq!['&', '#', '8', '5', '9', '5']);
    }
    assert(no_markup("PASS!"@)) by {
        reveal_strlit("PASS!");
        assert("PASS!"@ =~= seq!['P', 'A', 'S', 'S', '!']);
    }
    assert(no_markup("BREAK!"@)) by {
        reveal_strlit("BREAK!");
        assert("BREAK!"@ =~= seq!['B', 'R', 'E', 'A', 'K', '!']);
    }
    assert(no_markup("="@)) by {
        reveal_strlit("=");
        assert("="@ =~= seq!['=']);
    }
    assert(no_markup("n/a"@)) by {
        reveal_strlit("n/a");
        assert("n/a"@ =~= seq!['n', '/', 'a']);
    }
    assert forall|st: OperatorStatus| no_markup(#[trigger] st.spec_symbol()) by {
        match st {
            OperatorStatus::Up => {
                assert(st.spec_symbol() == "&#8593"@);
            },
            OperatorStatus::Down => {
                assert(st.spec_symbol() == "&#8595"@);
            },
            OperatorStatus::Pass => {
                assert(st.spec_symbol() == "PASS!"@);
            },
            OperatorStatus::Break => {
                assert(st.spec_symbol() == "BREAK!"@);
            },
            OperatorStatus::Stable => {
                assert(st.spec_symbol() == "="@);
            },
            OperatorStatus::Undefined => {
                assert(st.spec_symbol() == "n/a"@);
            },
        }
    }
    assert(no_markup("green"@)) by {
        reveal_strlit("green");
        assert("green"@ =~= seq!['g', 'r', 'e', 'e', 'n']);
    }
    assert(no_markup("red"@)) by {
        reveal_strlit("red");
        assert("red"@ =~= seq!['r', 'e', 'd']);
    }
    assert(no_markup("blue"@)) by {
        reveal_strlit("blue");
        assert("blue"@ =~= seq!['b', 'l', 'u', 'e']);
    }
    assert(no_markup("black"@)) by {
        reveal_strlit("black");
        assert("black"@ =~= seq!['b', 'l', 'a', 'c', 'k']);
    }
    assert(no_markup("color:"@)) by {
        reveal_strlit("color:");
        assert("color:"@ =~= seq!['c', 'o', 'l', 'o', 'r', ':']);
    }
    assert forall|st: OperatorStatus| no_markup("color:"@ + st.spec_color()) by {
        lemma_no_markup_concat("color:"@, st.spec_color());
    }
    assert forall|c: Option<CellColor>| no_markup(#[trigger] style_of_color(c)) by {
        match c {
            None => {
                assert(style_of_color(c) =~= Seq::<char>::empty());
            },
            Some(cc) => {
                lemma_no_markup_concat("color:"@, cc.spec_css());
            },
        }
    }
}

/// Pass/fail color of a count cell.
#[derive(Clone, Copy, Debug, PartialEq, Eq, Structural)]
pub enum CellColor {
    Green,
    Red,
}

impl CellColor {
    /// The CSS color name.
    pub open spec fn spec_css(self) -> Seq<char> {
        match self {
            CellColor::Green => "green"@,
            CellColor::Red => "red"@,
        }
    }

    /// The whole CSS style attribute value that applies the color.
    pub fn style(&self) -> (r: &'static str)
        ensures
            r@ == "color:"@ + self.spec_css(),
    {
        proof {
            reveal_strlit("color:");
            reveal_strlit("green");
            reveal_strlit("red");
            reveal_strlit("color:green");
            reveal_strlit("color:red");
            assert("color:green"@ =~= "color:"@ + "green"@);
            assert("color:red"@ =~= "color:"@ + "red"@);
        }
        match self {
            CellColor::Green => "color:green",
            CellColor::Red => "color:red",
        }
    }
}

/// Color of the operator-name cell: green only when generation and
/// simulation both fully pass; no pass/fail color when the operator has no
/// tests.
pub open spec fn spec_op_color(r: RecordV) -> Option<CellColor> {
    if r.ntests == 0 {
        None
    } else if r.generation == r.ntests && r.simulation == r.ntests {
        Some(CellColor::Green)
    } else {
        Some(CellColor::Red)
    }
}

/// Color of the generation cell: green exactly on full generation success;
/// none when the operator has no tests.
pub open spec fn spec_gen_color(r: RecordV) -> Option<CellColor> {
    if r.ntests == 0 {
        None
    } else if r.generation == r.ntests {
        Some(CellColor::Green)
    } else {
        Some(CellColor::Red)
    }
}

/// Color of the simulation and percentage cells: green exactly on full
/// simulation success; none when the operator has no tests.
pub open spec fn spec_sim_color(r: RecordV) -> Option<CellColor> {
    if r.ntests == 0 {
        None
    } else if r.simulation == r.ntests {
        Some(CellColor::Green)
    } else {
        Some(CellColor::Red)
    }
}

/// The style attribute a colored cell carries; none means no styling.
pub open spec fn style_of_color(c: Option<CellColor>) -> Seq<char> {
    match c {
        None => Seq::<char>::empty(),
        Some(cc) => "color:"@ + cc.spec_css(),
    }
}

/// How one table cell is shown: its text, and its pass/fail color if any.
pub struct CellPlan {
    pub text: Vec<u8>,
    pub color: Option<CellColor>,
}

/// How the provenance cell is shown: the sentinel plainly, or a link to the
/// commit, titled with its date.
pub enum ChangedCell {
    Plain { text: Vec<u8> },
    Link { commit: Vec<u8>, date: Vec<u8> },
}

/// How one record's row is shown, cell by cell in table order.
pub struct RowPlan {
    pub operator: CellPlan,
    pub tests: CellPlan,
    pub generation: CellPlan,
    pub simulation: CellPlan,
    pub percentage: CellPlan,
    pub status: OperatorStatus,
    pub changed: ChangedCell,
    pub status_last: OperatorStatus,
}

/// Decides every cell of one record's row: the texts, the pass/fail
/// coloring, and whether the provenance links to a commit. `date` is the
/// commit date to show on the link; it is ignored when the record still
/// holds the `"n/a"` sentinel.
pub fn row_plan(op: &Record, date: &Vec<u8>) -> (plan: RowPlan)
    ensures
        plan.operator.text@ == op@.id,
        plan.operator.color == spec_op_color(op@),
        plan.tests.text@ == dec_digits(op@.ntests as int),
        plan.tests.color is None,
        plan.generation.text@ == dec_digits(op@.generation as int),
        plan.generation.color == spec_gen_color(op@),
        plan.simulation.text@ == dec_digits(op@.simulation as int),
        plan.simulation.color == spec_sim_color(op@),
        plan.percentage.text@ == dec_digits(op@.percentage as int) + seq![('%' as u8)],
        plan.percentage.color == spec_sim_color(op@),
        plan.status == op@.status,
        plan.status_last == op@.status_last,
        op@.changed_last == na_bytes() ==> (plan.changed matches ChangedCell::Plain { text }
            && text@ == na_bytes()),
        op@.changed_last != na_bytes() ==> (plan.changed matches ChangedCell::Link {
            commit,
            date: d,
        } && commit@ == op@.changed_last && d@ == date@),
{
    let full_gen = op.ntests > 0 && op.generation == op.ntests;
    let full_sim = op.ntests > 0 && op.simulation == op.ntests;
    let op_color: Option<CellColor> = if op.ntests == 0 {
        None
    } else if full_gen && full_sim {
        Some(CellColor::Green)
    } else {
        Some(CellColor::Red)
    };
    let gen_color: Option<CellColor> = if op.ntests == 0 {
        None
    } else if full_gen {
        Some(CellColor::Green)
    } else {
        Some(CellColor::Red)
    };
    let sim_color: Option<CellColor> = if op.ntests == 0 {
        None
    } else if full_sim {
        Some(CellColor::Green)
    } else {
        Some(CellColor::Red)
    };
    let mut id_text: Vec<u8> = Vec::new();
    crate::text::push_bytes(&mut id_text, &op.id);
    proof {
        assert(id_text@ =~= op.id@);
    }
    let mut pct_text = crate::text::dec_u64(op.percentage);
    pct_text.push('%' as u8);
    let changed: ChangedCell = if op.has_change_link() {
        let mut commit: Vec<u8> = Vec::new();
        crate::text::push_bytes(&mut commit, &op.changed_last);
        let mut d: Vec<u8> = Vec::new();
        crate::text::push_bytes(&mut d, date);
        proof {
            assert(commit@ =~= op.changed_last@);
            assert(d@ =~= date@);
        }
        ChangedCell::Link { commit, date: d }
    } else {
        ChangedCell::Plain { text: crate::record::na_vec() }
    };
    RowPlan {
        operator: CellPlan { text: id_text, color: op_color },
        tests: CellPlan { text: crate::text::dec_u64(op.ntests), color: None },
        generation: CellPlan { text: crate::text::dec_u64(op.generation), color: gen_color },
        simulation: CellPlan { text: crate::text::dec_u64(op.simulation), color: sim_color },
        percentage: CellPlan { text: pct_text, color: sim_color },
        status: op.status,
        changed,
        status_last: op.status_last,
    }
}


/// Where the project's hosting shows a commit: the address up to the hash.
pub open spec fn commit_url_prefix() -> Seq<u8> {
    seq![('h' as u8), ('t' as u8), ('t' as u8), ('p' as u8), ('s' as u8), (':' as u8), ('/' as u8), ('/' as u8), ('g' as u8), ('i' as u8), ('t' as u8), ('l' as u8), ('a' as u8), ('b' as u8), ('.' as u8), ('c' as u8), ('o' as u8), ('m' as u8), ('/' as u8), ('f' as u8), ('l' as u8), ('o' as u8), ('p' as u8), ('o' as u8), ('c' as u8), ('o' as u8), ('/' as u8), ('f' as u8), ('l' as u8), ('o' as u8), ('p' as u8), ('o' as u8), ('c' as u8), ('o' as u8), ('/' as u8), ('-' as u8), ('/' as u8), ('c' as u8), ('o' as u8), ('m' as u8), ('m' as u8), ('i' as u8), ('t' as u8), ('/' as u8)]
}

/// The address of a commit's view in the project's hosting; the hash is
/// escaped before it goes in.
pub open spec fn commit_url_bytes(commit: Seq<u8>) -> Seq<u8> {
    commit_url_prefix() + escape_html(commit)
}

/// The text shown on a provenance link: the commit caption around the
/// escaped date.
pub open spec fn link_text_bytes(date: Seq<u8>) -> Seq<u8> {
    seq![('#' as u8), ('c' as u8), ('o' as u8), ('m' as u8), ('m' as u8), ('i' as u8), ('t' as u8), (' ' as u8), ('(' as u8)] + escape_html(date) + seq![(')' as u8)]
}

proof fn lemma_link_parts_clean(commit: Seq<u8>, date: Seq<u8>)
    ensures
        no_markup_bytes(commit_url_bytes(commit)),
        no_markup_bytes(link_text_bytes(date)),
{
    assert(no_markup_bytes(commit_url_prefix()));
    lemma_escape_html_clean(commit);
    lemma_no_markup_bytes_concat(commit_url_prefix(), escape_html(commit));
    assert(no_markup_bytes(seq![('#' as u8), ('c' as u8), ('o' as u8), ('m' as u8), ('m' as u8), ('i' as u8), ('t' as u8), (' ' as u8), ('(' as u8)]));
    lemma_escape_html_clean(date);
    lemma_no_markup_bytes_concat(seq![('#' as u8), ('c' as u8), ('o' as u8), ('m' as u8), ('m' as u8), ('i' as u8), ('t' as u8), (' ' as u8), ('(' as u8)], escape_html(date));
    assert(no_markup_bytes(seq![(')' as u8)]));
    lemma_no_markup_bytes_concat(seq![('#' as u8), ('c' as u8), ('o' as u8), ('m' as u8), ('m' as u8), ('i' as u8), ('t' as u8), (' ' as u8), ('(' as u8)] + escape_html(date), seq![(')' as u8)]);
}

/// Writes the address of a commit's view in the project's hosting.
pub fn commit_url_vec(commit: &Vec<u8>) -> (r: Vec<u8>)
    ensures
        r@ == commit_url_bytes(commit@),
{
    let mut v: Vec<u8> = Vec::new();
    v.push('h' as u8);
    v.push('t' as u8);
    v.push('t' as u8);
    v.push('p' as u8);
    v.push('s' as u8);
    v.push(':' as u8);
    v.push('/' as u8);
    v.push('/' as u8);
    v.push('g' as u8);
    v.push('i' as u8);
    v.push('t' as u8);
    v.push('l' as u8);
    v.push('a' as u8);
    v.push('b' as u8);
    v.push('.' as u8);
    v.push('c' as u8);
    v.push('o' as u8);
    v.push('m' as u8);
    v.push('/' as u8);
    v.push('f' as u8);
    v.push('l' as u8);
    v.push('o' as u8);
    v.push('p' as u8);
    v.push('o' as u8);
    v.push('c' as u8);
    v.push('o' as u8);
    v.push('/' as u8);
    v.push('f' as u8);
    v.push('l' as u8);
    v.push('o' as u8);
    v.push('p' as u8);
    v.push('o' as u8);
    v.push('c' as u8);
    v.push('o' as u8);
    v.push('/' as u8);
    v.push('-' as u8);
    v.push('/' as u8);
    v.push('c' as u8);
    v.push('o' as u8);
    v.push('m' as u8);
    v.push('m' as u8);
    v.push('i' as u8);
    v.push('t' as u8);
    v.push('/' as u8);
    proof {
        assert(v@ =~= commit_url_prefix());
    }
    let escaped = escape_html_bytes(commit);
    crate::text::push_bytes(&mut v, &escaped);
    v
}

/// Writes the text shown on a provenance link.
pub fn link_text_vec(date: &Vec<u8>) -> (r: Vec<u8>)
    ensures
        r@ == link_text_bytes(date@),
{
    let mut v: Vec<u8> = Vec::new();
    v.push('#' as u8);
    v.push('c' as u8);
    v.push('o' as u8);
    v.push('m' as u8);
    v.push('m' as u8);
    v.push('i' as u8);
    v.push('t' as u8);
    v.push(' ' as u8);
    v.push('(' as u8);
    proof {
        assert(v@ =~= seq![('#' as u8), ('c' as u8), ('o' as u8), ('m' as u8), ('m' as u8), ('i' as u8), ('t' as u8), (' ' as u8), ('(' as u8)]);
    }
    let escaped = escape_html_bytes(date);
    crate::text::push_bytes(&mut v, &escaped);
    v.push(')' as u8);
    proof {
        assert(v@ =~= link_text_bytes(date@));
    }
    v
}

#[verifier::external_type_specification]
#[verifier::external_body]
pub struct ExTableCell(TableCell);

#[verifier::external_type_specification]
#[verifier::external_body]
pub struct ExTableRow(TableRow);

#[verifier::external_type_specification]
#[verifier::external_body]
pub struct ExTable(Table);

#[verifier::external_type_specification]
#[verifier::external_body]
pub struct ExHtmlPage(HtmlPage);

/// The text a cell shows.
pub uninterp spec fn cell_text_of(c: TableCell) -> Seq<char>;

/// The CSS style attribute the cell's content carries; empty when none.
pub uninterp spec fn cell_style_of(c: TableCell) -> Seq<char>;

/// The target of the cell's hyperlink; empty when the cell is no link.
pub uninterp spec fn cell_href_of(c: TableCell) -> Seq<char>;

/// Whether the cell was built from markup-free strings only, so that its
/// text, style and link target stay separable in the written document.
pub uninterp spec fn cell_clean(c: TableCell) -> bool;

/// The cells a row holds, in order.
pub uninterp spec fn row_cells_of(r: TableRow) -> Seq<TableCell>;

/// Whether every cell of the row is clean.
pub uninterp spec fn row_clean(r: TableRow) -> bool;

/// The body rows a table holds, in order.
pub uninterp spec fn table_body_of(t: Table) -> Seq<TableRow>;

/// The column headings of the table's last header row, in order.
pub uninterp spec fn table_headers_of(t: Table) -> Seq<Seq<char>>;

/// Whether the table was built from clean rows and markup-free headings,
/// so that its parts stay separable once it is flattened into a page.
pub uninterp spec fn table_clean(t: Table) -> bool;

/// The page's title.
pub uninterp spec fn page_title_of(p: HtmlPage) -> Seq<char>;

/// The headings a page holds, in order.
pub uninterp spec fn page_headings_of(p: HtmlPage) -> Seq<Seq<char>>;

/// The tables a page holds, in order.
pub uninterp spec fn page_tables_of(p: HtmlPage) -> Seq<Table>;

/// Whether everything inserted into the page was markup-free or a clean
/// table, so that the page's title, headings and tables stay separable.
pub uninterp spec fn page_clean(p: HtmlPage) -> bool;

/// What replacing undecodable bytes yields as text.
pub uninterp spec fn lossy_of(b: Seq<u8>) -> Seq<char>;

/// The one HTML document a page writes out to.
pub uninterp spec fn html_of(p: HtmlPage) -> Seq<char>;

/// Relies on String::from_utf8_lossy: the bytes as text, undecodable
/// sequences replaced; the result depends on the bytes alone. An ASCII
/// character stands in the output only where its own byte stands in the
/// input, so markup-free bytes give markup-free text.
#[verifier::external_body]
fn lossy_string(v: &Vec<u8>) -> (r: String)
    ensures
        r@ == lossy_of(v@),
        no_markup_bytes(v@) ==> no_markup(r@),
{
    String::from_utf8_lossy(v).into_owned()
}

/// Relies on build_html's TableCell::default and
/// HtmlContainer::with_paragraph: a data cell showing the text in a plain,
/// unstyled paragraph. The text is inserted raw, so it must hold no markup.
#[verifier::external_body]
fn plain_cell(text: &str) -> (c: TableCell)
    requires
        no_markup(text@),
    ensures
        cell_text_of(c) == text@,
        cell_style_of(c) == Seq::<char>::empty(),
        cell_href_of(c) == Seq::<char>::empty(),
        cell_clean(c),
{
    TableCell::default().with_paragraph(text)
}

/// Relies on build_html's HtmlContainer::with_paragraph_attr: a data cell
/// showing the text in a paragraph carrying the given style attribute.
/// Both strings are inserted raw, so they must hold no markup.
#[verifier::external_body]
fn styled_cell(text: &str, style: &str) -> (c: TableCell)
    requires
        no_markup(text@),
        no_markup(style@),
    ensures
        cell_text_of(c) == text@,
        cell_style_of(c) == style@,
        cell_href_of(c) == Seq::<char>::empty(),
        cell_clean(c),
{
    TableCell::default().with_paragraph_attr(text, [("style", style)])
}

/// Relies on build_html's HtmlContainer::add_link: a data cell showing the
/// text as a hyperlink to the given address. Both byte strings are
/// inserted raw after decoding, so they must hold no markup.
#[verifier::external_body]
fn link_cell(href: &Vec<u8>, text: &Vec<u8>) -> (c: TableCell)
    requires
        no_markup_bytes(href@),
        no_markup_bytes(text@),
    ensures
        cell_text_of(c) == lossy_of(text@),
        cell_style_of(c) == Seq::<char>::empty(),
        cell_href_of(c) == lossy_of(href@),
        cell_clean(c),
{
    let mut c = TableCell::default();
    c.add_link(String::from_utf8_lossy(href), String::from_utf8_lossy(text));
    c
}

/// Relies on build_html's TableRow::new: an empty row.
#[verifier::external_body]
fn new_row() -> (r: TableRow)
    ensures
        row_cells_of(r) == Seq::<TableCell>::empty(),
        row_clean(r),
{
    TableRow::new()
}

/// Relies on build_html's TableRow::with_cell: the row with the cell
/// appended.
#[verifier::external_body]
fn row_add_cell(row: TableRow, cell: TableCell) -> (r: TableRow)
    requires
        row_clean(row),
        cell_clean(cell),
    ensures
        row_cells_of(r) == row_cells_of(row).push(cell),
        row_clean(r),
{
    row.with_cell(cell)
}

/// Relies on build_html's Table::new and Table::with_attributes: an empty
/// table carrying the given attribute, whose parts must hold no markup.
#[verifier::external_body]
fn new_table(attr_key: &str, attr_val: &str) -> (t: Table)
    requires
        no_markup(attr_key@),
        no_markup(attr_val@),
    ensures
        table_body_of(t) == Seq::<TableRow>::empty(),
        table_headers_of(t) == Seq::<Seq<char>>::empty(),
        table_clean(t),
{
    Table::new().with_attributes([(attr_key, attr_val)])
}

/// Relies on build_html's Table::with_header_row: the table with the given
/// column headings, inserted raw and so required markup-free; the body is
/// untouched. build_html appends header rows rather than replacing them,
/// so the headings named here are those of the last header row written.
#[verifier::external_body]
fn table_with_headers(table: Table, names: Vec<&str>) -> (t: Table)
    requires
        table_clean(table),
        forall|i: int| 0 <= i < names.deep_view().len() ==> no_markup(#[trigger] names.deep_view()[i]),
    ensures
        table_headers_of(t) == names.deep_view(),
        table_body_of(t) == table_body_of(table),
        table_clean(t),
{
    table.with_header_row(names)
}

/// Relies on build_html's Table::with_custom_body_row: the table with the
/// row appended to its body; the headings are untouched.
#[verifier::external_body]
fn table_add_row(table: Table, row: TableRow) -> (t: Table)
    requires
        table_clean(table),
        row_clean(row),
    ensures
        table_body_of(t) == table_body_of(table).push(row),
        table_headers_of(t) == table_headers_of(table),
        table_clean(t),
{
    table.with_custom_body_row(row)
}

/// Relies on build_html's HtmlPage::new and with_title: an empty page with
/// the given title, inserted raw and so required markup-free.
#[verifier::external_body]
fn page_new(title: &str) -> (p: HtmlPage)
    requires
        no_markup(title@),
    ensures
        page_title_of(p) == title@,
        page_headings_of(p) == Seq::<Seq<char>>::empty(),
        page_tables_of(p) == Seq::<Table>::empty(),
        page_clean(p),
{
    HtmlPage::new().with_title(title)
}

/// Relies on build_html's HtmlContainer::with_header: the page with one
/// more heading of the given level whose text is the three parts run
/// together. Levels outside one through six make build_html abort, so they
/// are refused here; the parts are inserted raw, so they must hold no
/// markup.
#[verifier::external_body]
fn page_header(page: HtmlPage, level: u8, prefix: &str, text: &str, suffix: &str) -> (p:
    HtmlPage)
    requires
        1 <= level <= 6,
        page_clean(page),
        no_markup(prefix@),
        no_markup(text@),
        no_markup(suffix@),
    ensures
        page_title_of(p) == page_title_of(page),
        page_headings_of(p) == page_headings_of(page).push(prefix@ + text@ + suffix@),
        page_tables_of(p) == page_tables_of(page),
        page_clean(p),
{
    page.with_header(level, format!("{prefix}{text}{suffix}"))
}

/// Relies on build_html's HtmlContainer::with_table: the page with the
/// clean table appended.
#[verifier::external_body]
fn page_add_table(page: HtmlPage, table: Table) -> (p: HtmlPage)
    requires
        page_clean(page),
        table_clean(table),
    ensures
        page_title_of(p) == page_title_of(page),
        page_headings_of(p) == page_headings_of(page),
        page_tables_of(p) == page_tables_of(page).push(table),
        page_clean(p),
{
    page.with_table(table)
}

/// Relies on build_html's Html::to_html_string: the page written out as one
/// HTML document; the result depends on the page alone.
#[verifier::external_body]
fn page_to_html(page: &HtmlPage) -> (r: String)
    ensures
        r@ == html_of(*page),
{
    page.to_html_string()
}

/// Relies on chrono's Local::now: the current local date and time, written
/// out; it depends on the clock, so nothing is promised of it.
#[verifier::external_body]
fn local_now_string() -> String {
    format!("{}", chrono::offset::Local::now())
}

/// The cell a plan describes: its text escaped and shown, styled as the
/// plan colors it.
fn cell_from_plan(plan: &CellPlan) -> (c: TableCell)
    ensures
        cell_text_of(c) == lossy_of(escape_html(plan.text@)),
        cell_style_of(c) == style_of_color(plan.color),
        cell_href_of(c) == Seq::<char>::empty(),
        cell_clean(c),
{
    let escaped = escape_html_bytes(&plan.text);
    proof {
        lemma_escape_html_clean(plan.text@);
    }
    let text = lossy_string(&escaped);
    match plan.color {
        None => plain_cell(text.as_str()),
        Some(color) => {
            proof {
                lemma_status_text_clean();
                assert(style_of_color(Some(color)) == "color:"@ + color.spec_css());
                assert(no_markup(style_of_color(Some(color))));
            }
            styled_cell(text.as_str(), color.style())
        },
    }
}

/// What one rendered row shows for a record: eight cells in the fixed
/// column order — name, tests, generation, simulation, percentage, status,
/// provenance, previous status — each colored as the plan decides, the
/// provenance either the plain sentinel or a link to the commit's view
/// titled with its date. Texts that come from records are escaped.
pub open spec fn report_row_ok(row: TableRow, op: RecordV, date: Seq<u8>) -> bool {
    let cells = row_cells_of(row);
    &&& cells.len() == 8
    &&& cell_text_of(cells[0]) == lossy_of(escape_html(op.id))
    &&& cell_style_of(cells[0]) == style_of_color(spec_op_color(op))
    &&& cell_text_of(cells[1]) == lossy_of(dec_digits(op.ntests as int))
    &&& cell_style_of(cells[1]) == Seq::<char>::empty()
    &&& cell_text_of(cells[2]) == lossy_of(dec_digits(op.generation as int))
    &&& cell_style_of(cells[2]) == style_of_color(spec_gen_color(op))
    &&& cell_text_of(cells[3]) == lossy_of(dec_digits(op.simulation as int))
    &&& cell_style_of(cells[3]) == style_of_color(spec_sim_color(op))
    &&& cell_text_of(cells[4]) == lossy_of(dec_digits(op.percentage as int) + seq![('%' as u8)])
    &&& cell_style_of(cells[4]) == style_of_color(spec_sim_color(op))
    &&& cell_text_of(cells[5]) == op.status.spec_symbol()
    &&& cell_style_of(cells[5]) == "color:"@ + op.status.spec_color()
    &&& (op.changed_last == na_bytes() ==> cell_text_of(cells[6]) == lossy_of(na_bytes())
        && cell_href_of(cells[6]) == Seq::<char>::empty())
    &&& (op.changed_last != na_bytes() ==> cell_href_of(cells[6]) == lossy_of(
        commit_url_bytes(op.changed_last),
    ) && cell_text_of(cells[6]) == lossy_of(link_text_bytes(date)))
    &&& cell_text_of(cells[7]) == op.status_last.spec_symbol()
    &&& cell_style_of(cells[7]) == "color:"@ + op.status_last.spec_color()
}

/// Appends one record's row to the clean table: exactly one more body row
/// of eight cells in the fixed column order, showing what `row_plan`
/// decides; the headings and the rows already there are untouched.
pub fn add_html_row(op: &Record, date: &Vec<u8>, table: Table) -> (r: Table)
    requires
        table_clean(table),
    ensures
        table_headers_of(r) == table_headers_of(table),
        table_clean(r),
        exists|row: TableRow|
            #![trigger report_row_ok(row, op@, date@)]
            table_body_of(r) == table_body_of(table).push(row) && report_row_ok(
                row,
                op@,
                date@,
            ),
{
    let plan = row_plan(op, date);
    proof {
        lemma_status_text_clean();
    }
    let mut row = new_row();
    let c0 = cell_from_plan(&plan.operator);
    let ghost g0 = c0;
    row = row_add_cell(row, c0);
    let c1 = cell_from_plan(&plan.tests);
    let ghost g1 = c1;
    row = row_add_cell(row, c1);
    let c2 = cell_from_plan(&plan.generation);
    let ghost g2 = c2;
    row = row_add_cell(row, c2);
    let c3 = cell_from_plan(&plan.simulation);
    let ghost g3 = c3;
    row = row_add_cell(row, c3);
    let c4 = cell_from_plan(&plan.percentage);
    let ghost g4 = c4;
    row = row_add_cell(row, c4);
    let c5 = styled_cell(plan.status.to_string(), plan.status.style());
    let ghost g5 = c5;
    row = row_add_cell(row, c5);
    let c6 = match &plan.changed {
        ChangedCell::Plain { text } => {
            proof {
                assert(op@.changed_last == na_bytes());
                assert(no_markup_bytes(text@));
                lemma_escape_html_identity(text@);
                lemma_escape_html_clean(text@);
            }
            let escaped = escape_html_bytes(text);
            let t = lossy_string(&escaped);
            plain_cell(t.as_str())
        },
        ChangedCell::Link { commit, date: d } => {
            proof {
                assert(op@.changed_last != na_bytes());
                lemma_link_parts_clean(commit@, d@);
            }
            let href = commit_url_vec(commit);
            let label = link_text_vec(d);
            link_cell(&href, &label)
        },
    };
    let ghost g6 = c6;
    row = row_add_cell(row, c6);
    let c7 = styled_cell(plan.status_last.to_string(), plan.status_last.style());
    let ghost g7 = c7;
    row = row_add_cell(row, c7);
    proof {
        lemma_digit_texts_plain(op@);
        assert(row_cells_of(row) =~= seq![g0, g1, g2, g3, g4, g5, g6, g7]);
        assert(report_row_ok(row, op@, date@));
    }
    let r = table_add_row(table, row);
    r
}

/// The plan's numeric texts hold only digits and the percent sign, so
/// escaping leaves them as they are.
proof fn lemma_digit_texts_plain(op: RecordV)
    ensures
        escape_html(dec_digits(op.ntests as int)) == dec_digits(op.ntests as int),
        escape_html(dec_digits(op.generation as int)) == dec_digits(op.generation as int),
        escape_html(dec_digits(op.simulation as int)) == dec_digits(op.simulation as int),
        escape_html(dec_digits(op.percentage as int) + seq![('%' as u8)]) == dec_digits(
            op.percentage as int,
        ) + seq![('%' as u8)],
{
    lemma_dec_no_markup(op.ntests as int);
    lemma_dec_no_markup(op.generation as int);
    lemma_dec_no_markup(op.simulation as int);
    lemma_dec_no_markup(op.percentage as int);
    lemma_escape_html_identity(dec_digits(op.ntests as int));
    lemma_escape_html_identity(dec_digits(op.generation as int));
    lemma_escape_html_identity(dec_digits(op.simulation as int));
    assert(no_markup_bytes(seq![('%' as u8)]));
    lemma_no_markup_bytes_concat(dec_digits(op.percentage as int), seq![('%' as u8)]);
    lemma_escape_html_identity(dec_digits(op.percentage as int) + seq![('%' as u8)]);
}

proof fn lemma_dec_no_markup(n: int)
    ensures
        no_markup_bytes(dec_digits(n)),
    decreases n,
{
    if n >= 10 {
        lemma_dec_no_markup(n / 10);
        assert(forall|i: int|
            0 <= i < dec_digits(n / 10).len() ==> (#[trigger] dec_digits(n / 10)[i]) != (
            '"' as u8) && dec_digits(n / 10)[i] != ('<' as u8) && dec_digits(n / 10)[i] != (
            '>' as u8));
    }
}

/// The report table's column headings, in order.
pub open spec fn report_columns() -> Seq<Seq<char>> {
    seq![
        "Operator"@,
        "Tests"@,
        "Generation"@,
        "Simulation"@,
        "%"@,
        "Status"@,
        "Changed Last"@,
        "Status Last"@,
    ]
}

/// The page captions are free of markup characters.
proof fn lemma_captions_clean()
    ensures
        no_markup("FloPoCo autotest results"@),
        no_markup("generated: "@),
        no_markup("branch: "@),
        no_markup(""@),
        no_markup("th style"@),
        no_markup("text-align:center"@),
        forall|i: int| 0 <= i < report_columns().len() ==> no_markup(#[trigger] report_columns()[i]),
{
    assert(no_markup("FloPoCo autotest results"@)) by {
        reveal_strlit("FloPoCo autotest results");
        assert("FloPoCo autotest results"@ =~= seq!['F', 'l', 'o', 'P', 'o', 'C', 'o', ' ', 'a', 'u', 't', 'o', 't', 'e', 's', 't', ' ', 'r', 'e', 's', 'u', 'l', 't', 's']);
    }
    assert(no_markup("generated: "@)) by {
        reveal_strlit("generated: ");
        assert("generated: "@ =~= seq!['g', 'e', 'n', 'e', 'r', 'a', 't', 'e', 'd', ':', ' ']);
    }
    assert(no_markup("branch: "@)) by {
        reveal_strlit("branch: ");
        assert("branch: "@ =~= seq!['b', 'r', 'a', 'n', 'c', 'h', ':', ' ']);
    }
    assert(no_markup("th style"@)) by {
        reveal_strlit("th style");
        assert("th style"@ =~= seq!['t', 'h', ' ', 's', 't', 'y', 'l', 'e']);
    }
    assert(no_markup("text-align:center"@)) by {
        reveal_strlit("text-align:center");
        assert("text-align:center"@ =~= seq!['t', 'e', 'x', 't', '-', 'a', 'l', 'i', 'g', 'n', ':', 'c', 'e', 'n', 't', 'e', 'r']);
    }
    assert(no_markup(""@)) by {
        reveal_strlit("");
        assert(""@ =~= Seq::<char>::empty());
    }
    assert forall|i: int| 0 <= i < report_columns().len() implies no_markup(
        #[trigger] report_columns()[i],
    ) by {
    assert(no_markup("Operator"@)) by {
            reveal_strlit("Operator");
            assert("Operator"@ =~= seq!['O', 'p', 'e', 'r', 'a', 't', 'o', 'r']);
        }
    assert(no_markup("Tests"@)) by {
            reveal_strlit("Tests");
            assert("Tests"@ =~= seq!['T', 'e', 's', 't', 's']);
        }
    assert(no_markup("Generation"@)) by {
            reveal_strlit("Generation");
            assert("Generation"@ =~= seq!['G', 'e', 'n', 'e', 'r', 'a', 't', 'i', 'o', 'n']);
        }
    assert(no_markup("Simulation"@)) by {
            reveal_strlit("Simulation");
            assert("Simulation"@ =~= seq!['S', 'i', 'm', 'u', 'l', 'a', 't', 'i', 'o', 'n']);
        }
    assert(no_markup("%"@)) by {
            reveal_strlit("%");
            assert("%"@ =~= seq!['%']);
        }
    assert(no_markup("Status"@)) by {
            reveal_strlit("Status");
            assert("Status"@ =~= seq!['S', 't', 'a', 't', 'u', 's']);
        }
    assert(no_markup("Changed Last"@)) by {
            reveal_strlit("Changed Last");
            assert("Changed Last"@ =~= seq!['C', 'h', 'a', 'n', 'g', 'e', 'd', ' ', 'L', 'a', 's', 't']);
        }
    assert(no_markup("Status Last"@)) by {
            reveal_strlit("Status Last");
            assert("Status Last"@ =~= seq!['S', 't', 'a', 't', 'u', 's', ' ', 'L', 'a', 's', 't']);
        }
    }
}

/// What the rendered page shows: the fixed title; two headings, the first
/// opening with the generation caption (the timestamp after it is the
/// clock's and is not pinned), the second naming the branch, escaped; and
/// one table with the fixed column headings and one row per record, in
/// order.
pub open spec fn report_page_ok(
    p: HtmlPage,
    records: Seq<RecordV>,
    dates: Seq<Seq<u8>>,
    branch: Seq<u8>,
) -> bool {
    &&& page_title_of(p) == "FloPoCo autotest results"@
    &&& page_headings_of(p).len() == 2
    &&& page_headings_of(p)[0].take("generated: "@.len() as int) == "generated: "@
    &&& page_headings_of(p)[1] == "branch: "@ + lossy_of(escape_html(branch))
    &&& page_tables_of(p).len() == 1
    &&& table_headers_of(page_tables_of(p)[0]) == report_columns()
    &&& table_body_of(page_tables_of(p)[0]).len() == records.len()
    &&& forall|i: int|
        0 <= i < records.len() ==> report_row_ok(
            #[trigger] table_body_of(page_tables_of(p)[0])[i],
            records[i],
            dates[i],
        )
}

/// Renders the whole report: a page as `report_page_ok` describes, written
/// out as one HTML document — the fixed title, the generation-time and
/// branch headings, and one colored table row per record, in order.
/// `dates` holds, for each record, the commit date shown on its provenance
/// link; the entry is ignored for a record that never changed.
pub fn render_report(records: &Vec<Record>, dates: &Vec<Vec<u8>>, branch: &Vec<u8>) -> (html:
    String)
    requires
        dates@.len() == records@.len(),
    ensures
        exists|p: HtmlPage|
            #![trigger html_of(p)]
            html@ == html_of(p) && report_page_ok(
                p,
                records.deep_view(),
                dates.deep_view(),
                branch@,
            ),
{
    let ghost rv = records.deep_view();
    let ghost dd = dates.deep_view();
    proof {
        lemma_captions_clean();
    }
    let now = local_now_string();
    let now_bytes = now.as_str().as_bytes_vec();
    let now_escaped = escape_html_bytes(&now_bytes);
    proof {
        lemma_escape_html_clean(now_bytes@);
    }
    let now_text = lossy_string(&now_escaped);
    let branch_escaped = escape_html_bytes(branch);
    proof {
        lemma_escape_html_clean(branch@);
    }
    let branch_text = lossy_string(&branch_escaped);
    let mut page = page_new("FloPoCo autotest results");
    page = page_header(page, 3, "generated: ", now_text.as_str(), "");
    page = page_header(page, 3, "branch: ", branch_text.as_str(), "");
    proof {
        reveal_strlit("");
        assert(""@ =~= Seq::<char>::empty());
        let h0 = "generated: "@ + now_text@ + ""@;
        assert(h0 =~= "generated: "@ + now_text@);
        assert(h0.take("generated: "@.len() as int) =~= "generated: "@);
        let h1 = "branch: "@ + branch_text@ + ""@;
        assert(h1 =~= "branch: "@ + lossy_of(escape_html(branch@)));
        assert(page_headings_of(page).len() == 2);
        assert(page_headings_of(page)[0] == h0);
        assert(page_headings_of(page)[1] == h1);
    }
    let mut table = new_table("th style", "text-align:center");
    let mut names: Vec<&str> = Vec::new();
    names.push("Operator");
    names.push("Tests");
    names.push("Generation");
    names.push("Simulation");
    names.push("%");
    names.push("Status");
    names.push("Changed Last");
    names.push("Status Last");
    proof {
        assert(names.deep_view() =~~= report_columns());
    }
    table = table_with_headers(table, names);
    let n = records.len();
    let mut i: usize = 0;
    while i < n
        invariant
            0 <= i <= n == records@.len(),
            dates@.len() == records@.len(),
            rv == records.deep_view(),
            dd == dates.deep_view(),
            table_clean(table),
            table_headers_of(table) == report_columns(),
            table_body_of(table).len() == i,
            forall|j: int|
                0 <= j < i ==> report_row_ok(
                    #[trigger] table_body_of(table)[j],
                    rv[j],
                    dd[j],
                ),
        decreases n - i,
    {
        let ghost pre = table;
        proof {
            assert(records[i as int]@ == rv[i as int]);
            assert(dates[i as int]@ =~= dd[i as int]);
        }
        table = add_html_row(&records[i], &dates[i], table);
        proof {
            let row = choose|row: TableRow|
                #![trigger report_row_ok(row, records[i as int]@, dates[i as int]@)]
                table_body_of(table) == table_body_of(pre).push(row) && report_row_ok(
                    row,
                    records[i as int]@,
                    dates[i as int]@,
                );
            assert(table_body_of(table).len() == i + 1);
            assert(table_body_of(table)[i as int] == row);
            assert(forall|j: int|
                0 <= j < i ==> #[trigger] table_body_of(table)[j] == table_body_of(pre)[j]);
        }
        i += 1;
    }
    page = page_add_table(page, table);
    let html = page_to_html(&page);
    proof {
        assert(page_tables_of(page).len() == 1);
        assert(page_tables_of(page)[0] == table);
        assert(report_page_ok(page, rv, dd, branch@));
        assert(html@ == html_of(page));
    }
    html
}

} // verus!
