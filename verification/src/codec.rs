//! The tabular codec: reads the delimited summary and comparison files into
//! records and writes records back, against a fixed column schema with
//! tolerant, case- and whitespace-insensitive header matching.

use vstd::prelude::*;

use crate::record::{na_bytes, na_vec, rounded_percent, RecordV, Record};
use crate::status::OperatorStatus;
use crate::text::{
    all_digits, bytes_eq, dec_digits, digits_val, is_digit, is_ws, parse_u64, parse_u64_bytes,
    split_bytes, split_on, join_with, trim, trim_bytes,
};

verus! {

/// The cell separator.
pub open spec fn comma() -> u8 {
    ',' as u8
}

/// The row separator.
pub open spec fn nl() -> u8 {
    '\n' as u8
}

/// The decimal point.
pub open spec fn dot() -> u8 {
    '.' as u8
}

/// The column name `"Operator"` as bytes.
pub open spec fn operator_cap() -> Seq<u8> {
    seq![('O' as u8), ('p' as u8), ('e' as u8), ('r' as u8), ('a' as u8), ('t' as u8), ('o' as u8), ('r' as u8)]
}

/// The column name `"Tests"` as bytes.
pub open spec fn tests_cap() -> Seq<u8> {
    seq![('T' as u8), ('e' as u8), ('s' as u8), ('t' as u8), ('s' as u8)]
}

/// The column name `"Generation"` as bytes.
pub open spec fn generation_cap() -> Seq<u8> {
    seq![('G' as u8), ('e' as u8), ('n' as u8), ('e' as u8), ('r' as u8), ('a' as u8), ('t' as u8), ('i' as u8), ('o' as u8), ('n' as u8)]
}

/// The column name `"Simulation"` as bytes.
pub open spec fn simulation_cap() -> Seq<u8> {
    seq![('S' as u8), ('i' as u8), ('m' as u8), ('u' as u8), ('l' as u8), ('a' as u8), ('t' as u8), ('i' as u8), ('o' as u8), ('n' as u8)]
}

/// The column name `"%"` as bytes.
pub open spec fn percent_cap() -> Seq<u8> {
    seq![('%' as u8)]
}

/// The column name `"Status"` as bytes.
pub open spec fn status_cap() -> Seq<u8> {
    seq![('S' as u8), ('t' as u8), ('a' as u8), ('t' as u8), ('u' as u8), ('s' as u8)]
}

/// The column name `"Changed Last"` as bytes.
pub open spec fn changed_cap() -> Seq<u8> {
    seq![('C' as u8), ('h' as u8), ('a' as u8), ('n' as u8), ('g' as u8), ('e' as u8), ('d' as u8), (' ' as u8), ('L' as u8), ('a' as u8), ('s' as u8), ('t' as u8)]
}

/// The column name `"Status Last"` as bytes.
pub open spec fn status_last_cap() -> Seq<u8> {
    seq![('S' as u8), ('t' as u8), ('a' as u8), ('t' as u8), ('u' as u8), ('s' as u8), (' ' as u8), ('L' as u8), ('a' as u8), ('s' as u8), ('t' as u8)]
}

/// The column name `"operator"` as bytes.
pub open spec fn operator_low() -> Seq<u8> {
    seq![('o' as u8), ('p' as u8), ('e' as u8), ('r' as u8), ('a' as u8), ('t' as u8), ('o' as u8), ('r' as u8)]
}

/// The column name `"tests"` as bytes.
pub open spec fn tests_low() -> Seq<u8> {
    seq![('t' as u8), ('e' as u8), ('s' as u8), ('t' as u8), ('s' as u8)]
}

/// The column name `"generation"` as bytes.
pub open spec fn generation_low() -> Seq<u8> {
    seq![('g' as u8), ('e' as u8), ('n' as u8), ('e' as u8), ('r' as u8), ('a' as u8), ('t' as u8), ('i' as u8), ('o' as u8), ('n' as u8)]
}

/// The column name `"simulation"` as bytes.
pub open spec fn simulation_low() -> Seq<u8> {
    seq![('s' as u8), ('i' as u8), ('m' as u8), ('u' as u8), ('l' as u8), ('a' as u8), ('t' as u8), ('i' as u8), ('o' as u8), ('n' as u8)]
}

/// The column name `"%"` as bytes.
pub open spec fn percent_low() -> Seq<u8> {
    seq![('%' as u8)]
}

/// The column name `"status"` as bytes.
pub open spec fn status_low() -> Seq<u8> {
    seq![('s' as u8), ('t' as u8), ('a' as u8), ('t' as u8), ('u' as u8), ('s' as u8)]
}

/// The column name `"changed last"` as bytes.
pub open spec fn changed_low() -> Seq<u8> {
    seq![('c' as u8), ('h' as u8), ('a' as u8), ('n' as u8), ('g' as u8), ('e' as u8), ('d' as u8), (' ' as u8), ('l' as u8), ('a' as u8), ('s' as u8), ('t' as u8)]
}

/// The column name `"status last"` as bytes.
pub open spec fn status_last_low() -> Seq<u8> {
    seq![('s' as u8), ('t' as u8), ('a' as u8), ('t' as u8), ('u' as u8), ('s' as u8), (' ' as u8), ('l' as u8), ('a' as u8), ('s' as u8), ('t' as u8)]
}

/// Writes the column name `"Operator"`.
pub fn operator_cap_vec() -> (r: Vec<u8>)
    ensures
        r@ == operator_cap(),
{
    let mut v: Vec<u8> = Vec::new();
    v.push('O' as u8);
    v.push('p' as u8);
    v.push('e' as u8);
    v.push('r' as u8);
    v.push('a' as u8);
    v.push('t' as u8);
    v.push('o' as u8);
    v.push('r' as u8);
    proof {
        assert(v@ =~= operator_cap());
    }
    v
}

/// Writes the column name `"Tests"`.
pub fn tests_cap_vec() -> (r: Vec<u8>)
    ensures
        r@ == tests_cap(),
{
    let mut v: Vec<u8> = Vec::new();
    v.push('T' as u8);
    v.push('e' as u8);
    v.push('s' as u8);
    v.push('t' as u8);
    v.push('s' as u8);
    proof {
        assert(v@ =~= tests_cap());
    }
    v
}

/// Writes the column name `"Generation"`.
pub fn generation_cap_vec() -> (r: Vec<u8>)
    ensures
        r@ == generation_cap(),
{
    let mut v: Vec<u8> = Vec::new();
    v.push('G' as u8);
    v.push('e' as u8);
    v.push('n' as u8);
    v.push('e' as u8);
    v.push('r' as u8);
    v.push('a' as u8);
    v.push('t' as u8);
    v.push('i' as u8);
    v.push('o' as u8);
    v.push('n' as u8);
    proof {
        assert(v@ =~= generation_cap());
    }
    v
}

/// Writes the column name `"Simulation"`.
pub fn simulation_cap_vec() -> (r: Vec<u8>)
    ensures
        r@ == simulation_cap(),
{
    let mut v: Vec<u8> = Vec::new();
    v.push('S' as u8);
    v.push('i' as u8);
    v.push('m' as u8);
    v.push('u' as u8);
    v.push('l' as u8);
    v.push('a' as u8);
    v.push('t' as u8);
    v.push('i' as u8);
    v.push('o' as u8);
    v.push('n' as u8);
    proof {
        assert(v@ =~= simulation_cap());
    }
    v
}

/// Writes the column name `"%"`.
pub fn percent_cap_vec() -> (r: Vec<u8>)
    ensures
        r@ == percent_cap(),
{
    let mut v: Vec<u8> = Vec::new();
    v.push('%' as u8);
    proof {
        assert(v@ =~= percent_cap());
    }
    v
}

/// Writes the column name `"Status"`.
pub fn status_cap_vec() -> (r: Vec<u8>)
    ensures
        r@ == status_cap(),
{
    let mut v: Vec<u8> = Vec::new();
    v.push('S' as u8);
    v.push('t' as u8);
    v.push('a' as u8);
    v.push('t' as u8);
    v.push('u' as u8);
    v.push('s' as u8);
    proof {
        assert(v@ =~= status_cap());
    }
    v
}

/// Writes the column name `"Changed Last"`.
pub fn changed_cap_vec() -> (r: Vec<u8>)
    ensures
        r@ == changed_cap(),
{
    let mut v: Vec<u8> = Vec::new();
    v.push('C' as u8);
    v.push('h' as u8);
    v.push('a' as u8);
    v.push('n' as u8);
    v.push('g' as u8);
    v.push('e' as u8);
    v.push('d' as u8);
    v.push(' ' as u8);
    v.push('L' as u8);
    v.push('a' as u8);
    v.push('s' as u8);
    v.push('t' as u8);
    proof {
        assert(v@ =~= changed_cap());
    }
    v
}

/// Writes the column name `"Status Last"`.
pub fn status_last_cap_vec() -> (r: Vec<u8>)
    ensures
        r@ == status_last_cap(),
{
    let mut v: Vec<u8> = Vec::new();
    v.push('S' as u8);
    v.push('t' as u8);
    v.push('a' as u8);
    v.push('t' as u8);
    v.push('u' as u8);
    v.push('s' as u8);
    v.push(' ' as u8);
    v.push('L' as u8);
    v.push('a' as u8);
    v.push('s' as u8);
    v.push('t' as u8);
    proof {
        assert(v@ =~= status_last_cap());
    }
    v
}

/// Writes the column name `"operator"`.
pub fn operator_low_vec() -> (r: Vec<u8>)
    ensures
        r@ == operator_low(),
{
    let mut v: Vec<u8> = Vec::new();
    v.push('o' as u8);
    v.push('p' as u8);
    v.push('e' as u8);
    v.push('r' as u8);
    v.push('a' as u8);
    v.push('t' as u8);
    v.push('o' as u8);
    v.push('r' as u8);
    proof {
        assert(v@ =~= operator_low());
    }
    v
}

/// Writes the column name `"tests"`.
pub fn tests_low_vec() -> (r: Vec<u8>)
    ensures
        r@ == tests_low(),
{
    let mut v: Vec<u8> = Vec::new();
    v.push('t' as u8);
    v.push('e' as u8);
    v.push('s' as u8);
    v.push('t' as u8);
    v.push('s' as u8);
    proof {
        assert(v@ =~= tests_low());
    }
    v
}

/// Writes the column name `"generation"`.
pub fn generation_low_vec() -> (r: Vec<u8>)
    ensures
        r@ == generation_low(),
{
    let mut v: Vec<u8> = Vec::new();
    v.push('g' as u8);
    v.push('e' as u8);
    v.push('n' as u8);
    v.push('e' as u8);
    v.push('r' as u8);
    v.push('a' as u8);
    v.push('t' as u8);
    v.push('i' as u8);
    v.push('o' as u8);
    v.push('n' as u8);
    proof {
        assert(v@ =~= generation_low());
    }
    v
}

/// Writes the column name `"simulation"`.
pub fn simulation_low_vec() -> (r: Vec<u8>)
    ensures
        r@ == simulation_low(),
{
    let mut v: Vec<u8> = Vec::new();
    v.push('s' as u8);
    v.push('i' as u8);
    v.push('m' as u8);
    v.push('u' as u8);
    v.push('l' as u8);
    v.push('a' as u8);
    v.push('t' as u8);
    v.push('i' as u8);
    v.push('o' as u8);
    v.push('n' as u8);
    proof {
        assert(v@ =~= simulation_low());
    }
    v
}

/// Writes the column name `"%"`.
pub fn percent_low_vec() -> (r: Vec<u8>)
    ensures
        r@ == percent_low(),
{
    let mut v: Vec<u8> = Vec::new();
    v.push('%' as u8);
    proof {
        assert(v@ =~= percent_low());
    }
    v
}

/// Writes the column name `"status"`.
pub fn status_low_vec() -> (r: Vec<u8>)
    ensures
        r@ == status_low(),
{
    let mut v: Vec<u8> = Vec::new();
    v.push('s' as u8);
    v.push('t' as u8);
    v.push('a' as u8);
    v.push('t' as u8);
    v.push('u' as u8);
    v.push('s' as u8);
    proof {
        assert(v@ =~= status_low());
    }
    v
}

/// Writes the column name `"changed last"`.
pub fn changed_low_vec() -> (r: Vec<u8>)
    ensures
        r@ == changed_low(),
{
    let mut v: Vec<u8> = Vec::new();
    v.push('c' as u8);
    v.push('h' as u8);
    v.push('a' as u8);
    v.push('n' as u8);
    v.push('g' as u8);
    v.push('e' as u8);
    v.push('d' as u8);
    v.push(' ' as u8);
    v.push('l' as u8);
    v.push('a' as u8);
    v.push('s' as u8);
    v.push('t' as u8);
    proof {
        assert(v@ =~= changed_low());
    }
    v
}

/// Writes the column name `"status last"`.
pub fn status_last_low_vec() -> (r: Vec<u8>)
    ensures
        r@ == status_last_low(),
{
    let mut v: Vec<u8> = Vec::new();
    v.push('s' as u8);
    v.push('t' as u8);
    v.push('a' as u8);
    v.push('t' as u8);
    v.push('u' as u8);
    v.push('s' as u8);
    v.push(' ' as u8);
    v.push('l' as u8);
    v.push('a' as u8);
    v.push('s' as u8);
    v.push('t' as u8);
    proof {
        assert(v@ =~= status_last_low());
    }
    v
}
/// The full output schema, in the fixed column order every write uses.
pub open spec fn header_fields() -> Seq<Seq<u8>> {
    seq![
        operator_cap(),
        tests_cap(),
        generation_cap(),
        simulation_cap(),
        percent_cap(),
        status_cap(),
        changed_cap(),
        status_last_cap(),
    ]
}

/// Writes the full output schema's column names.
pub fn header_fields_vec() -> (r: Vec<Vec<u8>>)
    ensures
        r.deep_view() == header_fields(),
{
    let mut v: Vec<Vec<u8>> = Vec::new();
    v.push(operator_cap_vec());
    v.push(tests_cap_vec());
    v.push(generation_cap_vec());
    v.push(simulation_cap_vec());
    v.push(percent_cap_vec());
    v.push(status_cap_vec());
    v.push(changed_cap_vec());
    v.push(status_last_cap_vec());
    proof {
        assert(v.deep_view() =~~= header_fields());
    }
    v
}

/// Upper-case letters fold to lower case; all else stays.
pub open spec fn to_lower(b: u8) -> u8 {
    if ('A' as u8) <= b <= ('Z' as u8) {
        (b + 32) as u8
    } else {
        b
    }
}

/// The byte string folded to lower case.
pub open spec fn lower(s: Seq<u8>) -> Seq<u8> {
    Seq::new(s.len(), |i: int| to_lower(s[i]))
}

/// Folds a byte string to lower case.
pub fn lower_bytes(s: &Vec<u8>) -> (r: Vec<u8>)
    ensures
        r@ == lower(s@),
{
    let mut r: Vec<u8> = Vec::new();
    let n = s.len();
    let mut i: usize = 0;
    while i < n
        invariant
            0 <= i <= n == s@.len(),
            r@ =~= lower(s@).take(i as int),
        decreases n - i,
    {
        let b = s[i];
        if ('A' as u8) <= b && b <= ('Z' as u8) {
            r.push(b + 32);
        } else {
            r.push(b);
        }
        proof {
            assert(lower(s@).take(i + 1 as int) =~= lower(s@).take(i as int).push(
                to_lower(s@[i as int]),
            ));
        }
        i += 1;
    }
    proof {
        assert(lower(s@).take(n as int) =~= lower(s@));
    }
    r
}

/// Whether a header cell names the given column: matching is insensitive to
/// incidental surrounding whitespace and to case.
pub open spec fn header_matches(cell: Seq<u8>, name: Seq<u8>) -> bool {
    lower(trim(cell)) == name
}

/// Decides whether a header cell names the given column.
pub fn header_matches_exec(cell: &Vec<u8>, name: &Vec<u8>) -> (r: bool)
    ensures
        r == header_matches(cell@, name@),
{
    let t = trim_bytes(cell);
    let lt = lower_bytes(&t);
    bytes_eq(&lt, name)
}

/// The first header cell naming the given column, if any.
pub open spec fn col_index(cells: Seq<Seq<u8>>, name: Seq<u8>) -> Option<int>
    decreases cells.len(),
{
    if cells.len() == 0 {
        None
    } else if header_matches(cells[0], name) {
        Some(0)
    } else {
        match col_index(cells.drop_first(), name) {
            None => None,
            Some(i) => Some(i + 1),
        }
    }
}

pub proof fn lemma_col_index_in_range(cells: Seq<Seq<u8>>, name: Seq<u8>)
    ensures
        match col_index(cells, name) {
            Some(i) => 0 <= i < cells.len() && header_matches(cells[i], name),
            None => forall|j: int| 0 <= j < cells.len() ==> !header_matches(#[trigger] cells[j], name),
        },
    decreases cells.len(),
{
    if cells.len() > 0 {
        lemma_col_index_in_range(cells.drop_first(), name);
        if !header_matches(cells[0], name) {
            assert(forall|j: int|
                1 <= j < cells.len() ==> cells.drop_first()[j - 1] == #[trigger] cells[j]);
        }
    }
}

proof fn lemma_col_index_skip(cells: Seq<Seq<u8>>, name: Seq<u8>, i: int)
    requires
        0 <= i <= cells.len(),
        forall|j: int| 0 <= j < i ==> !header_matches(#[trigger] cells[j], name),
    ensures
        col_index(cells, name) == match col_index(cells.skip(i), name) {
            None => None::<int>,
            Some(k) => Some(k + i),
        },
    decreases i,
{
    if i == 0 {
        assert(cells.skip(0) =~= cells);
        lemma_col_index_in_range(cells, name);
    } else {
        lemma_col_index_skip(cells, name, i - 1);
        let t = cells.skip(i - 1);
        assert(t[0] == cells[i - 1]);
        assert(!header_matches(cells[i - 1], name));
        assert(t.drop_first() =~= cells.skip(i));
    }
}

/// Finds the column with the given name among the header cells.
pub fn find_col(cells: &Vec<Vec<u8>>, name: &Vec<u8>) -> (r: Option<usize>)
    ensures
        match r {
            Some(j) => j < cells@.len() && col_index(cells.deep_view(), name@) == Some(j as int),
            None => col_index(cells.deep_view(), name@) is None,
        },
{
    let n = cells.len();
    let mut i: usize = 0;
    while i < n
        invariant
            0 <= i <= n == cells@.len(),
            forall|j: int|
                0 <= j < i ==> !header_matches(#[trigger] cells.deep_view()[j], name@),
        decreases n - i,
    {
        proof {
            assert(cells.deep_view()[i as int] =~= cells@[i as int]@);
        }
        if header_matches_exec(&cells[i], name) {
            proof {
                lemma_col_index_skip(cells.deep_view(), name@, i as int);
                let t = cells.deep_view().skip(i as int);
                assert(t[0] == cells.deep_view()[i as int]);
            }
            return Some(i);
        }
        i += 1;
    }
    proof {
        lemma_col_index_skip(cells.deep_view(), name@, n as int);
        assert(cells.deep_view().skip(n as int) =~= Seq::<Seq<u8>>::empty());
    }
    None
}

/// Mathematical image of a column schema read from a header row.
pub ghost struct SchemaV {
    pub operator: int,
    pub tests: int,
    pub generation: int,
    pub simulation: int,
    pub percentage: Option<int>,
    pub status: Option<int>,
    pub changed_last: Option<int>,
    pub status_last: Option<int>,
    pub ncols: int,
}

impl SchemaV {
    /// Every column the schema names lies inside the header's width.
    pub open spec fn wf(self) -> bool {
        &&& 0 <= self.operator < self.ncols
        &&& 0 <= self.tests < self.ncols
        &&& 0 <= self.generation < self.ncols
        &&& 0 <= self.simulation < self.ncols
        &&& (self.percentage matches Some(i) ==> 0 <= i < self.ncols)
        &&& (self.status matches Some(i) ==> 0 <= i < self.ncols)
        &&& (self.changed_last matches Some(i) ==> 0 <= i < self.ncols)
        &&& (self.status_last matches Some(i) ==> 0 <= i < self.ncols)
    }
}

/// A column schema read from a header row: where each expected column
/// stands. The four count columns are required; the derived columns are
/// optional so that a plain summary from the upstream producer decodes too.
pub struct Schema {
    pub operator: usize,
    pub tests: usize,
    pub generation: usize,
    pub simulation: usize,
    pub percentage: Option<usize>,
    pub status: Option<usize>,
    pub changed_last: Option<usize>,
    pub status_last: Option<usize>,
    pub ncols: usize,
}

/// The index as the mathematical schema holds it.
pub open spec fn opt_int(o: Option<usize>) -> Option<int> {
    match o {
        None => None,
        Some(x) => Some(x as int),
    }
}

impl View for Schema {
    type V = SchemaV;

    open spec fn view(&self) -> SchemaV {
        SchemaV {
            operator: self.operator as int,
            tests: self.tests as int,
            generation: self.generation as int,
            simulation: self.simulation as int,
            percentage: opt_int(self.percentage),
            status: opt_int(self.status),
            changed_last: opt_int(self.changed_last),
            status_last: opt_int(self.status_last),
            ncols: self.ncols as int,
        }
    }
}

/// The schema a header row defines, when it names all required columns.
pub open spec fn spec_schema_of(cells: Seq<Seq<u8>>) -> Option<SchemaV> {
    if col_index(cells, operator_low()) is Some && col_index(cells, tests_low()) is Some
        && col_index(cells, generation_low()) is Some && col_index(
        cells,
        simulation_low(),
    ) is Some {
        Some(
            SchemaV {
                operator: col_index(cells, operator_low())->Some_0,
                tests: col_index(cells, tests_low())->Some_0,
                generation: col_index(cells, generation_low())->Some_0,
                simulation: col_index(cells, simulation_low())->Some_0,
                percentage: col_index(cells, percent_low()),
                status: col_index(cells, status_low()),
                changed_last: col_index(cells, changed_low()),
                status_last: col_index(cells, status_last_low()),
                ncols: cells.len() as int,
            },
        )
    } else {
        None
    }
}

/// Reads the column schema from the header row's cells.
pub fn parse_header(cells: &Vec<Vec<u8>>) -> (r: Option<Schema>)
    ensures
        match r {
            Some(sch) => {
                &&& spec_schema_of(cells.deep_view()) == Some(sch@)
                &&& sch@.wf()
                &&& sch.ncols == cells@.len()
            },
            None => spec_schema_of(cells.deep_view()) is None,
        },
{
    let op = find_col(cells, &operator_low_vec());
    let te = find_col(cells, &tests_low_vec());
    let ge = find_col(cells, &generation_low_vec());
    let si = find_col(cells, &simulation_low_vec());
    let pc = find_col(cells, &percent_low_vec());
    let st = find_col(cells, &status_low_vec());
    let ch = find_col(cells, &changed_low_vec());
    let sl = find_col(cells, &status_last_low_vec());
    proof {
        lemma_col_index_in_range(cells.deep_view(), percent_low());
        lemma_col_index_in_range(cells.deep_view(), status_low());
        lemma_col_index_in_range(cells.deep_view(), changed_low());
        lemma_col_index_in_range(cells.deep_view(), status_last_low());
    }
    match (op, te, ge, si) {
        (Some(operator), Some(tests), Some(generation), Some(simulation)) => Some(
            Schema {
                operator,
                tests,
                generation,
                simulation,
                percentage: pc,
                status: st,
                changed_last: ch,
                status_last: sl,
                ncols: cells.len(),
            },
        ),
        _ => None,
    }
}


/// Count of decimal points in a cell.
pub open spec fn count_dots(s: Seq<u8>) -> int
    decreases s.len(),
{
    if s.len() == 0 {
        0
    } else {
        count_dots(s.drop_last()) + if s.last() == dot() {
            1int
        } else {
            0int
        }
    }
}

/// Whether the cell reads as an unsigned decimal number: digits with at most
/// one decimal point among them, and at least one digit.
pub open spec fn is_decimal(s: Seq<u8>) -> bool {
    &&& s.len() > 0
    &&& forall|i: int| 0 <= i < s.len() ==> is_digit(#[trigger] s[i]) || s[i] == dot()
    &&& count_dots(s) <= 1
    &&& count_dots(s) < s.len()
}

/// Decides whether the cell reads as an unsigned decimal number.
pub fn is_decimal_bytes(s: &Vec<u8>) -> (r: bool)
    ensures
        r == is_decimal(s@),
{
    let n = s.len();
    if n == 0 {
        return false;
    }
    let mut dots: usize = 0;
    let mut i: usize = 0;
    proof {
        assert(s@.take(0) =~= Seq::<u8>::empty());
    }
    while i < n
        invariant
            0 <= i <= n == s@.len(),
            dots == count_dots(s@.take(i as int)),
            dots <= i,
            forall|j: int| 0 <= j < i ==> is_digit(#[trigger] s@[j]) || s@[j] == dot(),
        decreases n - i,
    {
        let b = s[i];
        let ghost post = s@.take(i + 1 as int);
        proof {
            assert(post.drop_last() =~= s@.take(i as int));
            assert(post.last() == s@[i as int]);
        }
        if b == ('.' as u8) {
            dots += 1;
        } else if !(48 <= b && b <= 57) {
            proof {
                assert(!(is_digit(s@[i as int]) || s@[i as int] == dot()));
            }
            return false;
        }
        i += 1;
    }
    proof {
        assert(s@.take(n as int) =~= s@);
    }
    dots <= 1 && dots < n
}

/// The status a stored cell names, if any.
pub open spec fn spec_parse_status(s: Seq<u8>) -> Option<OperatorStatus> {
    if s == OperatorStatus::Up.spec_name() {
        Some(OperatorStatus::Up)
    } else if s == OperatorStatus::Down.spec_name() {
        Some(OperatorStatus::Down)
    } else if s == OperatorStatus::Pass.spec_name() {
        Some(OperatorStatus::Pass)
    } else if s == OperatorStatus::Break.spec_name() {
        Some(OperatorStatus::Break)
    } else if s == OperatorStatus::Stable.spec_name() {
        Some(OperatorStatus::Stable)
    } else if s == OperatorStatus::Undefined.spec_name() {
        Some(OperatorStatus::Undefined)
    } else {
        None
    }
}

/// Reads a status cell.
pub fn parse_status(s: &Vec<u8>) -> (r: Option<OperatorStatus>)
    ensures
        r == spec_parse_status(s@),
{
    if bytes_eq(s, &OperatorStatus::Up.name_bytes()) {
        Some(OperatorStatus::Up)
    } else if bytes_eq(s, &OperatorStatus::Down.name_bytes()) {
        Some(OperatorStatus::Down)
    } else if bytes_eq(s, &OperatorStatus::Pass.name_bytes()) {
        Some(OperatorStatus::Pass)
    } else if bytes_eq(s, &OperatorStatus::Break.name_bytes()) {
        Some(OperatorStatus::Break)
    } else if bytes_eq(s, &OperatorStatus::Stable.name_bytes()) {
        Some(OperatorStatus::Stable)
    } else if bytes_eq(s, &OperatorStatus::Undefined.name_bytes()) {
        Some(OperatorStatus::Undefined)
    } else {
        None
    }
}

/// Why a file failed to decode. Partial tables are never accepted: any of
/// these aborts the whole decode.
#[derive(Clone, Copy, Debug, PartialEq, Eq, Structural)]
pub enum DecodeError {
    /// The header row does not name every required column.
    Header,
    /// The row holds a different number of cells than the header.
    CellCount { row: usize },
    /// A numeric cell does not read as a number in range.
    Number { row: usize, col: usize },
    /// A status cell names no known status.
    UnknownStatus { row: usize, col: usize },
    /// A success count exceeds the row's test count.
    CountsExceedTests { row: usize },
}

/// The record one row's cells hold under the given schema, or why the row is
/// malformed. Cells are trimmed before they are read; the persisted
/// percentage cell is only checked for shape, since the percentage is
/// recomputed from the row's own counts.
pub open spec fn row_to_record(cells: Seq<Seq<u8>>, sch: SchemaV, row: int) -> Result<
    RecordV,
    DecodeError,
> {
    if cells.len() != sch.ncols {
        Err(DecodeError::CellCount { row: row as usize })
    } else if parse_u64(trim(cells[sch.tests])) is None {
        Err(DecodeError::Number { row: row as usize, col: sch.tests as usize })
    } else if parse_u64(trim(cells[sch.generation])) is None {
        Err(DecodeError::Number { row: row as usize, col: sch.generation as usize })
    } else if parse_u64(trim(cells[sch.simulation])) is None {
        Err(DecodeError::Number { row: row as usize, col: sch.simulation as usize })
    } else if parse_u64(trim(cells[sch.generation]))->Some_0 > parse_u64(
        trim(cells[sch.tests]),
    )->Some_0 || parse_u64(trim(cells[sch.simulation]))->Some_0 > parse_u64(
        trim(cells[sch.tests]),
    )->Some_0 {
        Err(DecodeError::CountsExceedTests { row: row as usize })
    } else if (match sch.percentage {
        Some(c) => !is_decimal(trim(cells[c])),
        None => false,
    }) {
        Err(DecodeError::Number { row: row as usize, col: sch.percentage->Some_0 as usize })
    } else if (match sch.status {
        Some(c) => spec_parse_status(trim(cells[c])) is None,
        None => false,
    }) {
        Err(DecodeError::UnknownStatus { row: row as usize, col: sch.status->Some_0 as usize })
    } else if (match sch.status_last {
        Some(c) => spec_parse_status(trim(cells[c])) is None,
        None => false,
    }) {
        Err(
            DecodeError::UnknownStatus {
                row: row as usize,
                col: sch.status_last->Some_0 as usize,
            },
        )
    } else {
        let nt = parse_u64(trim(cells[sch.tests]))->Some_0;
        let si = parse_u64(trim(cells[sch.simulation]))->Some_0;
        Ok(
            RecordV {
                id: trim(cells[sch.operator]),
                ntests: nt,
                generation: parse_u64(trim(cells[sch.generation]))->Some_0,
                simulation: si,
                percentage: rounded_percent(si, nt) as u64,
                status: match sch.status {
                    Some(c) => spec_parse_status(trim(cells[c]))->Some_0,
                    None => OperatorStatus::Undefined,
                },
                changed_last: match sch.changed_last {
                    Some(c) => trim(cells[c]),
                    None => na_bytes(),
                },
                status_last: match sch.status_last {
                    Some(c) => spec_parse_status(trim(cells[c]))->Some_0,
                    None => OperatorStatus::Undefined,
                },
            },
        )
    }
}

/// A row that decodes at all decodes to a well-formed record.
pub proof fn lemma_row_ok_wf(cells: Seq<Seq<u8>>, sch: SchemaV, row: int)
    ensures
        row_to_record(cells, sch, row) matches Ok(r) ==> r.wf(),
{
    if row_to_record(cells, sch, row) is Ok {
        let nt = parse_u64(trim(cells[sch.tests]))->Some_0;
        let si = parse_u64(trim(cells[sch.simulation]))->Some_0;
        crate::record::lemma_rounded_percent_range(si, nt);
    }
}

/// Reads one row's cells as a record under the given schema.
pub fn parse_row(cells: &Vec<Vec<u8>>, sch: &Schema, row: usize) -> (r: Result<
    Record,
    DecodeError,
>)
    requires
        sch@.wf(),
    ensures
        match r {
            Ok(rec) => row_to_record(cells.deep_view(), sch@, row as int) == Ok::<RecordV, DecodeError>(rec@),
            Err(e) => row_to_record(cells.deep_view(), sch@, row as int) == Err::<RecordV, DecodeError>(e),
        },
{
    let ghost cv = cells.deep_view();
    proof {
        assert forall|j: int| 0 <= j < cells@.len() implies cv[j] =~= cells@[j]@ by {}
    }
    if cells.len() != sch.ncols {
        return Err(DecodeError::CellCount { row });
    }
    let nt_opt = parse_u64_bytes(&trim_bytes(&cells[sch.tests]));
    if nt_opt.is_none() {
        return Err(DecodeError::Number { row, col: sch.tests });
    }
    let ge_opt = parse_u64_bytes(&trim_bytes(&cells[sch.generation]));
    if ge_opt.is_none() {
        return Err(DecodeError::Number { row, col: sch.generation });
    }
    let si_opt = parse_u64_bytes(&trim_bytes(&cells[sch.simulation]));
    if si_opt.is_none() {
        return Err(DecodeError::Number { row, col: sch.simulation });
    }
    let nt = nt_opt.unwrap();
    let ge = ge_opt.unwrap();
    let si = si_opt.unwrap();
    if ge > nt || si > nt {
        return Err(DecodeError::CountsExceedTests { row });
    }
    if let Some(c) = sch.percentage {
        if !is_decimal_bytes(&trim_bytes(&cells[c])) {
            return Err(DecodeError::Number { row, col: c });
        }
    }
    let mut status = OperatorStatus::Undefined;
    if let Some(c) = sch.status {
        match parse_status(&trim_bytes(&cells[c])) {
            Some(st) => {
                status = st;
            },
            None => {
                return Err(DecodeError::UnknownStatus { row, col: c });
            },
        }
    }
    let mut status_last = OperatorStatus::Undefined;
    if let Some(c) = sch.status_last {
        match parse_status(&trim_bytes(&cells[c])) {
            Some(st) => {
                status_last = st;
            },
            None => {
                return Err(DecodeError::UnknownStatus { row, col: c });
            },
        }
    }
    let changed_last: Vec<u8> = match sch.changed_last {
        Some(c) => trim_bytes(&cells[c]),
        None => na_vec(),
    };
    let percentage = crate::record::percent_of(si, nt);
    Ok(
        Record {
            id: trim_bytes(&cells[sch.operator]),
            ntests: nt,
            generation: ge,
            simulation: si,
            percentage,
            status,
            changed_last,
            status_last,
        },
    )
}


/// Whether a line is blank: nothing but incidental whitespace.
pub open spec fn is_blank(s: Seq<u8>) -> bool {
    crate::text::trim_start(s).len() == 0
}

/// Decides whether a line is blank.
pub fn is_blank_line(s: &Vec<u8>) -> (r: bool)
    ensures
        r == is_blank(s@),
{
    let n = s.len();
    let mut i: usize = 0;
    while i < n
        invariant
            0 <= i <= n == s@.len(),
            forall|j: int| 0 <= j < i ==> is_ws(s@[j]),
        decreases n - i,
    {
        if !crate::text::is_ws_exec(s[i]) {
            proof {
                crate::text::lemma_trim_start_at(s@, i as int);
            }
            return false;
        }
        i += 1;
    }
    proof {
        crate::text::lemma_trim_start_at(s@, n as int);
        assert(s@.subrange(n as int, n as int) =~= Seq::<u8>::empty());
    }
    true
}

/// The first line at or after `i` that is not blank.
pub open spec fn first_nonblank(lines: Seq<Seq<u8>>, i: int) -> Option<int>
    decreases lines.len() - i,
{
    if i < 0 || i >= lines.len() {
        None
    } else if !is_blank(lines[i]) {
        Some(i)
    } else {
        first_nonblank(lines, i + 1)
    }
}

proof fn lemma_first_nonblank_from(lines: Seq<Seq<u8>>, i: int)
    requires
        0 <= i <= lines.len(),
        forall|j: int| 0 <= j < i ==> is_blank(#[trigger] lines[j]),
    ensures
        first_nonblank(lines, 0) == first_nonblank(lines, i),
    decreases i,
{
    if i > 0 {
        lemma_first_nonblank_from(lines, i - 1);
    }
}

/// The records the rows from line `i` on hold, or the first reason a row is
/// malformed; blank lines are passed over.
pub open spec fn decode_rows(lines: Seq<Seq<u8>>, i: int, sch: SchemaV) -> Result<
    Seq<RecordV>,
    DecodeError,
>
    decreases lines.len() - i,
{
    if i < 0 || i >= lines.len() {
        Ok(Seq::empty())
    } else if is_blank(lines[i]) {
        decode_rows(lines, i + 1, sch)
    } else {
        match row_to_record(split_on(lines[i], comma()), sch, i) {
            Err(e) => Err(e),
            Ok(r) => match decode_rows(lines, i + 1, sch) {
                Err(e) => Err(e),
                Ok(rs) => Ok(seq![r] + rs),
            },
        }
    }
}

/// What a whole file decodes to: the rows after the header line, under the
/// schema the header names. A file with no line besides blank ones holds no
/// records and no header to object to.
pub open spec fn spec_decode(s: Seq<u8>) -> Result<Seq<RecordV>, DecodeError> {
    let lines = split_on(s, nl());
    match first_nonblank(lines, 0) {
        None => Ok(Seq::empty()),
        Some(h) => match spec_schema_of(split_on(lines[h], comma())) {
            None => Err(DecodeError::Header),
            Some(sch) => decode_rows(lines, h + 1, sch),
        },
    }
}

/// The decoded records of a decode result.
pub open spec fn res_view(r: Result<Vec<Record>, DecodeError>) -> Result<
    Seq<RecordV>,
    DecodeError,
> {
    match r {
        Ok(v) => Ok(v.deep_view()),
        Err(e) => Err(e),
    }
}

/// Reads a whole delimited file into records. Rows whose success counts
/// exceed their test count, unreadable numbers and unknown statuses are
/// rejected; every record handed back is well formed.
pub fn decode(input: &Vec<u8>) -> (r: Result<Vec<Record>, DecodeError>)
    ensures
        res_view(r) == spec_decode(input@),
        r matches Ok(v) ==> forall|i: int|
            0 <= i < v@.len() ==> (#[trigger] v.deep_view()[i]).wf(),
{
    let lines = split_bytes(input, '\n' as u8);
    let ghost lv = lines.deep_view();
    let n = lines.len();
    proof {
        assert forall|j: int| 0 <= j < n implies lv[j] =~= lines@[j]@ by {}
    }
    let mut h: usize = 0;
    while h < n && is_blank_line(&lines[h])
        invariant
            0 <= h <= n == lines@.len(),
            lv == lines.deep_view(),
            forall|j: int| 0 <= j < h ==> is_blank(#[trigger] lv[j]),
        decreases n - h,
    {
        proof {
            assert(lv[h as int] =~= lines@[h as int]@);
        }
        h += 1;
    }
    proof {
        lemma_first_nonblank_from(lv, h as int);
    }
    if h == n {
        proof {
            assert(first_nonblank(lv, 0) is None);
        }
        let empty_records: Vec<Record> = Vec::new();
        proof {
            assert(empty_records.deep_view() =~= Seq::<RecordV>::empty());
        }
        return Ok(empty_records);
    }
    proof {
        assert(lv[h as int] =~= lines@[h as int]@);
        assert(!is_blank(lv[h as int]));
        assert(first_nonblank(lv, 0) == Some(h as int));
    }
    let header_cells = split_bytes(&lines[h], ',' as u8);
    proof {
        assert(header_cells.deep_view() == split_on(lv[h as int], comma()));
    }
    let sch = match parse_header(&header_cells) {
        None => {
            return Err(DecodeError::Header);
        },
        Some(sch) => sch,
    };
    let mut acc: Vec<Record> = Vec::new();
    let mut i: usize = h + 1;
    proof {
        assert(acc.deep_view() =~= Seq::<RecordV>::empty());
        if decode_rows(lv, h + 1, sch@) is Ok {
            assert(acc.deep_view() + decode_rows(lv, h + 1, sch@)->Ok_0 =~= decode_rows(
                lv,
                h + 1,
                sch@,
            )->Ok_0);
        }
    }
    while i < n
        invariant
            h + 1 <= i <= n == lines@.len(),
            lv == lines.deep_view(),
            lv == split_on(input@, nl()),
            first_nonblank(lv, 0) == Some(h as int),
            spec_schema_of(split_on(lv[h as int], comma())) == Some(sch@),
            sch@.wf(),
            decode_rows(lv, h + 1 as int, sch@) == (match decode_rows(lv, i as int, sch@) {
                Ok(rest) => Ok::<Seq<RecordV>, DecodeError>(acc.deep_view() + rest),
                Err(e) => Err::<Seq<RecordV>, DecodeError>(e),
            }),
            forall|j: int| 0 <= j < acc@.len() ==> (#[trigger] acc.deep_view()[j]).wf(),
        decreases n - i,
    {
        proof {
            assert(lv[i as int] =~= lines@[i as int]@);
        }
        if is_blank_line(&lines[i]) {
            i += 1;
            continue;
        }
        let cells = split_bytes(&lines[i], ',' as u8);
        proof {
            assert(cells.deep_view() == split_on(lv[i as int], comma()));
        }
        match parse_row(&cells, &sch, i) {
            Err(e) => {
                proof {
                    assert(!is_blank(lv[i as int]));
                    assert(decode_rows(lv, i as int, sch@) == Err::<Seq<RecordV>, DecodeError>(
                        e,
                    ));
                }
                return Err(e);
            },
            Ok(rec) => {
                proof {
                    lemma_row_ok_wf(cells.deep_view(), sch@, i as int);
                }
                let ghost old_acc = acc.deep_view();
                acc.push(rec);
                proof {
                    assert(acc.deep_view() =~~= old_acc.push(rec@));
                    let tail = decode_rows(lv, i + 1 as int, sch@);
                    if tail is Ok {
                        assert(old_acc + (seq![rec@] + tail->Ok_0) =~= acc.deep_view()
                            + tail->Ok_0);
                    }
                }
            },
        }
        i += 1;
    }
    proof {
        assert(decode_rows(lv, n as int, sch@) == Ok::<Seq<RecordV>, DecodeError>(Seq::empty()));
        assert(acc.deep_view() + Seq::<RecordV>::empty() =~= acc.deep_view());
    }
    Ok(acc)
}


/// One record as a row of cells, in the fixed output column order.
pub open spec fn record_cells(r: RecordV) -> Seq<Seq<u8>> {
    seq![
        r.id,
        dec_digits(r.ntests as int),
        dec_digits(r.generation as int),
        dec_digits(r.simulation as int),
        dec_digits(r.percentage as int),
        r.status.spec_name(),
        r.changed_last,
        r.status_last.spec_name(),
    ]
}

/// One record's row as written.
pub open spec fn record_line(r: RecordV) -> Seq<u8> {
    join_with(record_cells(r), comma())
}

/// The header row as written.
pub open spec fn header_line() -> Seq<u8> {
    join_with(header_fields(), comma())
}

/// The record rows as written, in order.
pub open spec fn encode_lines(rs: Seq<RecordV>) -> Seq<Seq<u8>>
    decreases rs.len(),
{
    if rs.len() == 0 {
        Seq::empty()
    } else {
        encode_lines(rs.drop_last()).push(record_line(rs.last()))
    }
}

/// The lines written out, each closed by the row separator.
pub open spec fn lines_bytes(lines: Seq<Seq<u8>>) -> Seq<u8>
    decreases lines.len(),
{
    if lines.len() == 0 {
        Seq::empty()
    } else {
        lines_bytes(lines.drop_last()) + lines.last() + seq![nl()]
    }
}

/// What a record sequence encodes to: the header row, then one row per
/// record in the fixed column order.
pub open spec fn spec_encode(rs: Seq<RecordV>) -> Seq<u8> {
    lines_bytes(seq![header_line()] + encode_lines(rs))
}

/// Appends the cells joined with the cell separator.
fn append_joined(out: &mut Vec<u8>, cells: &Vec<Vec<u8>>)
    requires
        cells.deep_view().len() >= 1,
    ensures
        final(out)@ == old(out)@ + join_with(cells.deep_view(), comma()),
{
    let ghost cv = cells.deep_view();
    proof {
        assert forall|j: int| 0 <= j < cells@.len() implies cv[j] =~= cells@[j]@ by {}
    }
    let n = cells.len();
    let mut j: usize = 0;
    while j < n
        invariant
            0 <= j <= n == cells@.len(),
            n >= 1,
            cv == cells.deep_view(),
            j == 0 ==> out@ == old(out)@,
            j >= 1 ==> out@ == old(out)@ + join_with(cv.take(j as int), comma()),
        decreases n - j,
    {
        let ghost pre = cv.take(j as int);
        let ghost post = cv.take(j + 1 as int);
        proof {
            assert(post.drop_last() =~= pre);
            assert(post.last() == cv[j as int]);
            assert(cv[j as int] =~= cells@[j as int]@);
        }
        if j > 0 {
            out.push(',' as u8);
        }
        crate::text::push_bytes(out, &cells[j]);
        proof {
            if j == 0 {
                assert(post.len() == 1);
                assert(join_with(post, comma()) == cv[0]);
                assert(out@ =~= old(out)@ + join_with(post, comma()));
            } else {
                assert(join_with(post, comma()) == join_with(pre, comma()) + seq![comma()]
                    + cv[j as int]);
                assert(out@ =~= old(out)@ + join_with(post, comma()));
            }
        }
        j += 1;
    }
    proof {
        assert(cv.take(n as int) =~= cv);
    }
}

/// The cells of one record's row, as fresh vectors.
fn record_cells_vec(r: &Record) -> (cells: Vec<Vec<u8>>)
    ensures
        cells.deep_view() == record_cells(r@),
{
    let mut cells: Vec<Vec<u8>> = Vec::new();
    let mut id: Vec<u8> = Vec::new();
    crate::text::push_bytes(&mut id, &r.id);
    proof {
        assert(id@ =~= r.id@);
    }
    cells.push(id);
    cells.push(crate::text::dec_u64(r.ntests));
    cells.push(crate::text::dec_u64(r.generation));
    cells.push(crate::text::dec_u64(r.simulation));
    cells.push(crate::text::dec_u64(r.percentage));
    cells.push(r.status.name_bytes());
    let mut changed: Vec<u8> = Vec::new();
    crate::text::push_bytes(&mut changed, &r.changed_last);
    proof {
        assert(changed@ =~= r.changed_last@);
    }
    cells.push(changed);
    cells.push(r.status_last.name_bytes());
    proof {
        assert(cells.deep_view() =~~= record_cells(r@));
    }
    cells
}

/// Writes records as a delimited table: the header row first, then one row
/// per record, always in the same fixed column order. Cells are written
/// unquoted, so a value holding a separator byte cannot be written
/// faithfully; `csv_safe` names the values that read back as they went in.
/// The bytes replace the destination file whole; nothing is appended.
pub fn encode(records: &Vec<Record>) -> (out: Vec<u8>)
    ensures
        out@ == spec_encode(records.deep_view()),
{
    let ghost rv = records.deep_view();
    let mut out: Vec<u8> = Vec::new();
    let hdr = header_fields_vec();
    append_joined(&mut out, &hdr);
    out.push(10);
    proof {
        assert(nl() == 10);
        let h1 = seq![header_line()];
        assert(h1.drop_last() =~= Seq::<Seq<u8>>::empty());
        assert(lines_bytes(Seq::<Seq<u8>>::empty()) =~= Seq::<u8>::empty());
        assert(h1.last() == header_line());
        assert(lines_bytes(h1) =~= header_line() + seq![nl()]);
        assert(out@ =~= header_line() + seq![nl()]);
        let l0 = seq![header_line()] + encode_lines(rv.take(0));
        assert(encode_lines(rv.take(0)) =~= Seq::<Seq<u8>>::empty());
        assert(l0 =~= h1);
        assert(out@ == lines_bytes(l0));
    }
    let n = records.len();
    let mut i: usize = 0;
    while i < n
        invariant
            0 <= i <= n == records@.len(),
            rv == records.deep_view(),
            out@ == lines_bytes(seq![header_line()] + encode_lines(rv.take(i as int))),
        decreases n - i,
    {
        let ghost pre_lines = seq![header_line()] + encode_lines(rv.take(i as int));
        let cells = record_cells_vec(&records[i]);
        proof {
            assert(records[i as int]@ == rv[i as int]);
        }
        append_joined(&mut out, &cells);
        out.push(10);
        proof {
            let post_lines = seq![header_line()] + encode_lines(rv.take(i + 1 as int));
            assert(rv.take(i + 1 as int).drop_last() =~= rv.take(i as int));
            assert(rv.take(i + 1 as int).last() == rv[i as int]);
            assert(post_lines =~= pre_lines.push(record_line(rv[i as int])));
            assert(post_lines.drop_last() =~= pre_lines);
            assert(out@ =~= lines_bytes(post_lines));
        }
        i += 1;
    }
    proof {
        assert(rv.take(n as int) =~= rv);
    }
    out
}


/// A byte string that can sit in a cell and come back as it went in: free
/// of both separators, with no whitespace at its ends.
pub open spec fn csv_safe(s: Seq<u8>) -> bool {
    &&& trim(s) == s
    &&& forall|i: int| 0 <= i < s.len() ==> #[trigger] s[i] != comma() && s[i] != nl()
}

/// The schema of the fixed output column order.
pub open spec fn canonical_schema() -> SchemaV {
    SchemaV {
        operator: 0,
        tests: 1,
        generation: 2,
        simulation: 3,
        percentage: Some(4int),
        status: Some(5int),
        changed_last: Some(6int),
        status_last: Some(7int),
        ncols: 8,
    }
}

proof fn lemma_count_dots_zero(s: Seq<u8>)
    requires
        forall|i: int| 0 <= i < s.len() ==> #[trigger] s[i] != dot(),
    ensures
        count_dots(s) == 0,
    decreases s.len(),
{
    if s.len() > 0 {
        assert(s.last() != dot());
        assert(forall|i: int|
            0 <= i < s.drop_last().len() ==> #[trigger] s.drop_last()[i] != dot()) by {
            assert(forall|i: int| 0 <= i < s.len() - 1 ==> #[trigger] s[i] != dot());
        }
        lemma_count_dots_zero(s.drop_last());
    }
}

/// What a written count cell looks like to the decoder: clean digits that
/// read back as the same number, also acceptable as a percentage cell.
proof fn lemma_digit_cell(n: int)
    requires
        0 <= n <= u64::MAX,
    ensures
        trim(dec_digits(n)) == dec_digits(n),
        parse_u64(dec_digits(n)) == Some(n as u64),
        is_decimal(dec_digits(n)),
        forall|i: int|
            0 <= i < dec_digits(n).len() ==> #[trigger] dec_digits(n)[i] != comma() && dec_digits(
                n,
            )[i] != nl(),
{
    crate::text::lemma_dec_digits_roundtrip(n);
    let d = dec_digits(n);
    assert(is_digit(d[0]) && is_digit(d.last()));
    assert(!is_ws(d[0]) && !is_ws(d.last()));
    crate::text::lemma_trim_clean(d);
    assert(forall|i: int| 0 <= i < d.len() ==> #[trigger] d[i] != dot());
    lemma_count_dots_zero(d);
}

/// What a written status cell looks like to the decoder: a clean name that
/// reads back as the same status.
proof fn lemma_status_cell(st: OperatorStatus)
    ensures
        trim(st.spec_name()) == st.spec_name(),
        spec_parse_status(st.spec_name()) == Some(st),
        forall|i: int|
            0 <= i < st.spec_name().len() ==> #[trigger] st.spec_name()[i] != comma()
                && st.spec_name()[i] != nl(),
{
    let s = st.spec_name();
    assert(!is_ws(s[0]) && !is_ws(s.last()));
    crate::text::lemma_trim_clean(s);
    assert(OperatorStatus::Pass.spec_name()[0] != OperatorStatus::Down.spec_name()[0]);
}

/// A written row reads back as the record it was written from, under the
/// fixed output schema, whatever its row number.
proof fn lemma_row_roundtrip(r: RecordV, row: int)
    requires
        r.wf(),
        csv_safe(r.id),
        csv_safe(r.changed_last),
    ensures
        forall|k: int| 0 <= k < record_line(r).len() ==> #[trigger] record_line(r)[k] != nl(),
        !is_blank(record_line(r)),
        row_to_record(split_on(record_line(r), comma()), canonical_schema(), row) == Ok::<
            RecordV,
            DecodeError,
        >(r),
{
    let cells = record_cells(r);
    let line = record_line(r);
    lemma_digit_cell(r.ntests as int);
    lemma_digit_cell(r.generation as int);
    lemma_digit_cell(r.simulation as int);
    lemma_digit_cell(r.percentage as int);
    lemma_status_cell(r.status);
    lemma_status_cell(r.status_last);
    assert forall|i: int, j: int|
        0 <= i < cells.len() && 0 <= j < cells[i].len() implies #[trigger] cells[i][j] != comma()
        && cells[i][j] != nl() by {
        if i == 0 {
            assert(cells[i][j] == r.id[j]);
        } else if i == 6 {
            assert(cells[i][j] == r.changed_last[j]);
        }
    }
    crate::text::lemma_split_join(cells, comma());
    assert(split_on(line, comma()) == cells);
    crate::text::lemma_join_free(cells, comma(), nl());
    // the row is not blank: its first byte is the name's first byte or a
    // separator, neither of which is whitespace
    crate::text::lemma_join_first_byte(cells, comma());
    if r.id.len() > 0 {
        crate::text::lemma_trim_fixed_ends(r.id);
        assert(!is_ws(line[0]));
    } else {
        assert(line[0] == comma());
        assert(!is_ws(line[0]));
    }
    crate::text::lemma_trim_start_at(line, 0);
    assert(line.subrange(0, line.len() as int) =~= line);
    assert(line.len() > 0);
    // each cell reads back
    let sch = canonical_schema();
    assert(cells.len() == sch.ncols);
    assert(cells[1] == dec_digits(r.ntests as int));
    assert(parse_u64(trim(cells[1])) == Some(r.ntests));
    assert(parse_u64(trim(cells[2])) == Some(r.generation));
    assert(parse_u64(trim(cells[3])) == Some(r.simulation));
    assert(is_decimal(trim(cells[4])));
    assert(spec_parse_status(trim(cells[5])) == Some(r.status));
    assert(spec_parse_status(trim(cells[7])) == Some(r.status_last));
    crate::record::lemma_rounded_percent_range(r.simulation, r.ntests);
    let back = row_to_record(cells, sch, row);
    assert(back is Ok);
    assert(back->Ok_0 == r);
}


/// The written header reads back as the fixed output schema.
proof fn lemma_header_schema()
    ensures
        forall|k: int| 0 <= k < header_line().len() ==> #[trigger] header_line()[k] != nl(),
        !is_blank(header_line()),
        spec_schema_of(split_on(header_line(), comma())) == Some(canonical_schema()),
{
    let fs = header_fields();
    assert forall|i: int, j: int|
        0 <= i < fs.len() && 0 <= j < fs[i].len() implies #[trigger] fs[i][j] != comma()
        && fs[i][j] != nl() by {}
    crate::text::lemma_split_join(fs, comma());
    crate::text::lemma_join_free(fs, comma(), nl());
    crate::text::lemma_join_first_byte(fs, comma());
    assert(!is_ws(header_line()[0]));
    crate::text::lemma_trim_start_at(header_line(), 0);
    assert(header_line().subrange(0, header_line().len() as int) =~= header_line());
    assert(header_line().len() > 0);

    assert(!is_ws(operator_cap()[0]) && !is_ws(operator_cap().last()));
    crate::text::lemma_trim_clean(operator_cap());
    assert(lower(operator_cap()) =~= operator_low());
    assert(!is_ws(tests_cap()[0]) && !is_ws(tests_cap().last()));
    crate::text::lemma_trim_clean(tests_cap());
    assert(lower(tests_cap()) =~= tests_low());
    assert(!is_ws(generation_cap()[0]) && !is_ws(generation_cap().last()));
    crate::text::lemma_trim_clean(generation_cap());
    assert(lower(generation_cap()) =~= generation_low());
    assert(!is_ws(simulation_cap()[0]) && !is_ws(simulation_cap().last()));
    crate::text::lemma_trim_clean(simulation_cap());
    assert(lower(simulation_cap()) =~= simulation_low());
    assert(!is_ws(percent_cap()[0]) && !is_ws(percent_cap().last()));
    crate::text::lemma_trim_clean(percent_cap());
    assert(lower(percent_cap()) =~= percent_low());
    assert(!is_ws(status_cap()[0]) && !is_ws(status_cap().last()));
    crate::text::lemma_trim_clean(status_cap());
    assert(lower(status_cap()) =~= status_low());
    assert(!is_ws(changed_cap()[0]) && !is_ws(changed_cap().last()));
    crate::text::lemma_trim_clean(changed_cap());
    assert(lower(changed_cap()) =~= changed_low());
    assert(!is_ws(status_last_cap()[0]) && !is_ws(status_last_cap().last()));
    crate::text::lemma_trim_clean(status_last_cap());
    assert(lower(status_last_cap()) =~= status_last_low());
    assert(generation_low()[0] != simulation_low()[0]);
    assert(generation_low() != simulation_low());
    let s0 = fs;
    let s1 = s0.drop_first();
    let s2 = s1.drop_first();
    let s3 = s2.drop_first();
    let s4 = s3.drop_first();
    let s5 = s4.drop_first();
    let s6 = s5.drop_first();
    let s7 = s6.drop_first();
    assert(s0.len() == 8);
    assert(s0[0] == operator_cap());
    assert(s1.len() == 7);
    assert(s1[0] == tests_cap());
    assert(s2.len() == 6);
    assert(s2[0] == generation_cap());
    assert(s3.len() == 5);
    assert(s3[0] == simulation_cap());
    assert(s4.len() == 4);
    assert(s4[0] == percent_cap());
    assert(s5.len() == 3);
    assert(s5[0] == status_cap());
    assert(s6.len() == 2);
    assert(s6[0] == changed_cap());
    assert(s7.len() == 1);
    assert(s7[0] == status_last_cap());
    assert(header_matches(s0[0], operator_low()));
    assert(col_index(s0, operator_low()) == Some(0int));
    assert(header_matches(s1[0], tests_low()));
    assert(col_index(s1, tests_low()) == Some(0int));
    assert(!header_matches(s0[0], tests_low()));
    assert(col_index(s0, tests_low()) == Some(1int));
    assert(header_matches(s2[0], generation_low()));
    assert(col_index(s2, generation_low()) == Some(0int));
    assert(!header_matches(s1[0], generation_low()));
    assert(col_index(s1, generation_low()) == Some(1int));
    assert(!header_matches(s0[0], generation_low()));
    assert(col_index(s0, generation_low()) == Some(2int));
    assert(header_matches(s3[0], simulation_low()));
    assert(col_index(s3, simulation_low()) == Some(0int));
    assert(!header_matches(s2[0], simulation_low()));
    assert(col_index(s2, simulation_low()) == Some(1int));
    assert(!header_matches(s1[0], simulation_low()));
    assert(col_index(s1, simulation_low()) == Some(2int));
    assert(!header_matches(s0[0], simulation_low()));
    assert(col_index(s0, simulation_low()) == Some(3int));
    assert(header_matches(s4[0], percent_low()));
    assert(col_index(s4, percent_low()) == Some(0int));
    assert(!header_matches(s3[0], percent_low()));
    assert(col_index(s3, percent_low()) == Some(1int));
    assert(!header_matches(s2[0], percent_low()));
    assert(col_index(s2, percent_low()) == Some(2int));
    assert(!header_matches(s1[0], percent_low()));
    assert(col_index(s1, percent_low()) == Some(3int));
    assert(!header_matches(s0[0], percent_low()));
    assert(col_index(s0, percent_low()) == Some(4int));
    assert(header_matches(s5[0], status_low()));
    assert(col_index(s5, status_low()) == Some(0int));
    assert(!header_matches(s4[0], status_low()));
    assert(col_index(s4, status_low()) == Some(1int));
    assert(!header_matches(s3[0], status_low()));
    assert(col_index(s3, status_low()) == Some(2int));
    assert(!header_matches(s2[0], status_low()));
    assert(col_index(s2, status_low()) == Some(3int));
    assert(!header_matches(s1[0], status_low()));
    assert(col_index(s1, status_low()) == Some(4int));
    assert(!header_matches(s0[0], status_low()));
    assert(col_index(s0, status_low()) == Some(5int));
    assert(header_matches(s6[0], changed_low()));
    assert(col_index(s6, changed_low()) == Some(0int));
    assert(!header_matches(s5[0], changed_low()));
    assert(col_index(s5, changed_low()) == Some(1int));
    assert(!header_matches(s4[0], changed_low()));
    assert(col_index(s4, changed_low()) == Some(2int));
    assert(!header_matches(s3[0], changed_low()));
    assert(col_index(s3, changed_low()) == Some(3int));
    assert(!header_matches(s2[0], changed_low()));
    assert(col_index(s2, changed_low()) == Some(4int));
    assert(!header_matches(s1[0], changed_low()));
    assert(col_index(s1, changed_low()) == Some(5int));
    assert(!header_matches(s0[0], changed_low()));
    assert(col_index(s0, changed_low()) == Some(6int));
    assert(header_matches(s7[0], status_last_low()));
    assert(col_index(s7, status_last_low()) == Some(0int));
    assert(!header_matches(s6[0], status_last_low()));
    assert(col_index(s6, status_last_low()) == Some(1int));
    assert(!header_matches(s5[0], status_last_low()));
    assert(col_index(s5, status_last_low()) == Some(2int));
    assert(!header_matches(s4[0], status_last_low()));
    assert(col_index(s4, status_last_low()) == Some(3int));
    assert(!header_matches(s3[0], status_last_low()));
    assert(col_index(s3, status_last_low()) == Some(4int));
    assert(!header_matches(s2[0], status_last_low()));
    assert(col_index(s2, status_last_low()) == Some(5int));
    assert(!header_matches(s1[0], status_last_low()));
    assert(col_index(s1, status_last_low()) == Some(6int));
    assert(!header_matches(s0[0], status_last_low()));
    assert(col_index(s0, status_last_low()) == Some(7int));
    assert(spec_schema_of(fs) == Some(canonical_schema()));
    assert(split_on(header_line(), comma()) == fs);
}


proof fn lemma_encode_lines_index(rs: Seq<RecordV>)
    ensures
        encode_lines(rs).len() == rs.len(),
        forall|k: int| 0 <= k < rs.len() ==> #[trigger] encode_lines(rs)[k] == record_line(rs[k]),
    decreases rs.len(),
{
    if rs.len() > 0 {
        lemma_encode_lines_index(rs.drop_last());
    }
}

proof fn lemma_split_lines_bytes(lines: Seq<Seq<u8>>)
    requires
        forall|i: int, j: int|
            0 <= i < lines.len() && 0 <= j < lines[i].len() ==> #[trigger] lines[i][j] != nl(),
    ensures
        split_on(lines_bytes(lines), nl()) == lines.push(Seq::empty()),
    decreases lines.len(),
{
    if lines.len() == 0 {
        assert(lines_bytes(lines) =~= Seq::<u8>::empty());
        assert(split_on(lines_bytes(lines), nl()) == seq![Seq::<u8>::empty()]);
        assert(seq![Seq::<u8>::empty()] =~= lines.push(Seq::empty()));
    } else {
        let pre = lines.drop_last();
        assert(forall|i: int, j: int|
            0 <= i < pre.len() && 0 <= j < pre[i].len() ==> #[trigger] pre[i][j] != nl()) by {
            assert(forall|i: int, j: int|
                0 <= i < lines.len() - 1 && 0 <= j < lines[i].len() ==> #[trigger] lines[i][j]
                    != nl());
        }
        lemma_split_lines_bytes(pre);
        let x = lines_bytes(pre);
        let last = lines.last();
        assert(forall|j: int| 0 <= j < last.len() ==> #[trigger] last[j] != nl()) by {
            assert(forall|j: int|
                0 <= j < lines[lines.len() - 1].len() ==> #[trigger] lines[lines.len() - 1][j]
                    != nl());
        }
        crate::text::lemma_split_on_append_free(x, last, nl());
        crate::text::lemma_split_on_len(x, nl());
        let sx = split_on(x, nl());
        assert(sx == pre.push(Seq::empty()));
        assert(sx.last() == Seq::<u8>::empty());
        assert(sx.last() + last =~= last);
        assert(split_on(x + last, nl()) =~~= pre.push(last));
        let y = x + last;
        assert(y.push(nl()).drop_last() =~= y);
        assert(y.push(nl()).last() == nl());
        assert(split_on(y.push(nl()), nl()) == split_on(y, nl()).push(Seq::empty()));
        assert(lines_bytes(lines) =~= y.push(nl()));
        assert(pre.push(last) =~= lines);
    }
}

proof fn lemma_decode_blank_tail(lines: Seq<Seq<u8>>, i: int, sch: SchemaV)
    requires
        forall|k: int| i <= k < lines.len() ==> is_blank(#[trigger] lines[k]),
    ensures
        decode_rows(lines, i, sch) == Ok::<Seq<RecordV>, DecodeError>(Seq::empty()),
    decreases lines.len() - i,
{
    if 0 <= i && i < lines.len() {
        lemma_decode_blank_tail(lines, i + 1, sch);
    }
}

proof fn lemma_decode_encoded_rows(rs: Seq<RecordV>, lines: Seq<Seq<u8>>, p: int)
    requires
        0 <= p,
        p + rs.len() <= lines.len(),
        forall|k: int| 0 <= k < rs.len() ==> lines[p + k] == record_line(#[trigger] rs[k]),
        forall|k: int| p + rs.len() <= k < lines.len() ==> is_blank(#[trigger] lines[k]),
        forall|i: int| 0 <= i < rs.len() ==> (#[trigger] rs[i]).wf(),
        forall|i: int|
            0 <= i < rs.len() ==> csv_safe((#[trigger] rs[i]).id) && csv_safe(
                rs[i].changed_last,
            ),
    ensures
        decode_rows(lines, p, canonical_schema()) == Ok::<Seq<RecordV>, DecodeError>(rs),
    decreases rs.len(),
{
    if rs.len() == 0 {
        lemma_decode_blank_tail(lines, p, canonical_schema());
        assert(rs =~= Seq::<RecordV>::empty());
    } else {
        lemma_row_roundtrip(rs[0], p);
        assert(lines[p + 0] == record_line(rs[0]));
        assert(!is_blank(lines[p]));
        let rest = rs.drop_first();
        assert forall|k: int| 0 <= k < rest.len() implies lines[p + 1 + k] == record_line(
            #[trigger] rest[k],
        ) by {
            assert(rest[k] == rs[k + 1]);
            assert(lines[p + (k + 1)] == record_line(rs[k + 1]));
        }
        assert forall|i: int| 0 <= i < rest.len() implies (#[trigger] rest[i]).wf() && csv_safe(
            rest[i].id,
        ) && csv_safe(rest[i].changed_last) by {
            assert(rest[i] == rs[i + 1]);
            assert(rs[i + 1].wf());
            assert(csv_safe(rs[i + 1].id) && csv_safe(rs[i + 1].changed_last));
        }
        lemma_decode_encoded_rows(rest, lines, p + 1);
        assert(decode_rows(lines, p, canonical_schema()) == Ok::<Seq<RecordV>, DecodeError>(
            seq![rs[0]] + rest,
        ));
        assert(seq![rs[0]] + rest =~= rs);
    }
}

/// Writing records and reading the bytes back yields the records exactly:
/// the operator name, the three counts, the derived fields and the
/// provenance all survive the trip, for every record whose name and
/// provenance can sit in a cell (nothing trimmed away at the ends, and free
/// of the separators).
pub proof fn lemma_encode_decode_roundtrip(rs: Seq<RecordV>)
    requires
        forall|i: int| 0 <= i < rs.len() ==> (#[trigger] rs[i]).wf(),
        forall|i: int|
            0 <= i < rs.len() ==> csv_safe((#[trigger] rs[i]).id) && csv_safe(
                rs[i].changed_last,
            ),
    ensures
        spec_decode(spec_encode(rs)) == Ok::<Seq<RecordV>, DecodeError>(rs),
{
    let all = seq![header_line()] + encode_lines(rs);
    lemma_header_schema();
    lemma_encode_lines_index(rs);
    assert forall|i: int, j: int|
        0 <= i < all.len() && 0 <= j < all[i].len() implies #[trigger] all[i][j] != nl() by {
        if i == 0 {
            assert(all[0] == header_line());
        } else {
            assert(all[i] == encode_lines(rs)[i - 1]);
            assert(all[i] == record_line(rs[i - 1]));
            lemma_row_roundtrip(rs[i - 1], 0);
        }
    }
    lemma_split_lines_bytes(all);
    let lines = all.push(Seq::<u8>::empty());
    assert(split_on(spec_encode(rs), nl()) == lines);
    assert(lines[0] == header_line());
    assert(!is_blank(lines[0]));
    assert(first_nonblank(lines, 0) == Some(0int));
    assert(split_on(lines[0], comma()) == split_on(header_line(), comma()));
    assert(spec_schema_of(split_on(lines[0], comma())) == Some(canonical_schema()));
    assert forall|k: int| 0 <= k < rs.len() implies lines[1 + k] == record_line(
        #[trigger] rs[k],
    ) by {
        assert(lines[1 + k] == all[1 + k]);
        assert(all[1 + k] == encode_lines(rs)[k]);
    }
    assert(is_blank(Seq::<u8>::empty()));
    assert forall|k: int| 1 + rs.len() <= k < lines.len() implies is_blank(
        #[trigger] lines[k],
    ) by {
        assert(k == lines.len() - 1);
        assert(lines[k] =~= Seq::<u8>::empty());
    }
    lemma_decode_encoded_rows(rs, lines, 1);
    assert(spec_decode(spec_encode(rs)) == Ok::<Seq<RecordV>, DecodeError>(rs));
}

} // verus!
