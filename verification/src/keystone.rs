//! Keystone query results and the tally of recorded outcomes that seeds a
//! Beta prior over a success rate.
//!
//! A cell is read as an integer when its bytes are an optional sign and
//! decimal digits, as text otherwise. An outcome counts as a success when
//! its cell is the text `success` or the integer 1, as a failure when it is
//! `failure` or the integer 0; anything else (a missing or null cell, other
//! numbers, other text) is not counted.
use vstd::prelude::*;
use crate::util::{names_v, str_eq};

verus! {

/// A Keystone error.
#[derive(Debug, Clone, PartialEq)]
pub enum KeystoneError {
    Connection(String),
}

/// A row of a query result: its column names and raw cell bytes (`None` for
/// SQL `NULL`).
#[derive(Debug, Clone)]
pub struct Row {
    column_names: Vec<String>,
    values: Vec<Option<Vec<u8>>>,
}

/// The mathematical content of a [`Row`].
pub struct RowV {
    pub column_names: Seq<Seq<char>>,
    pub values: Seq<Option<Seq<u8>>>,
}

/// The view of a cell.
pub open spec fn cell_v(c: Option<Vec<u8>>) -> Option<Seq<u8>> {
    match c {
        Some(b) => Some(b@),
        None => None,
    }
}

impl View for Row {
    type V = RowV;

    closed spec fn view(&self) -> RowV {
        RowV { column_names: names_v(self.column_names@), values: self.values@.map_values(|c: Option<Vec<u8>>| cell_v(c)) }
    }
}

impl Row {
    /// A row with the given column names and cells.
    pub fn new(column_names: Vec<String>, values: Vec<Option<Vec<u8>>>) -> (r: Row)
        ensures
            r@.column_names == names_v(column_names@),
            r@.values == values@.map_values(|c: Option<Vec<u8>>| cell_v(c)),
    {
        Row { column_names, values }
    }

    /// The row's column names.
    pub fn column_names(&self) -> (r: &[String])
        ensures
            names_v(r@) == self@.column_names,
    {
        self.column_names.as_slice()
    }

    /// The raw bytes of the cell at `idx`, `None` when it is missing or null.
    pub fn cell(&self, idx: usize) -> (r: Option<&Vec<u8>>)
        ensures
            match r {
                Some(b) => idx < self@.values.len() && self@.values[idx as int] == Some(b@),
                None => idx >= self@.values.len() || self@.values[idx as int] is None,
            },
    {
        if idx < self.values.len() {
            match &self.values[idx] {
                Some(b) => Some(b),
                None => None,
            }
        } else {
            None
        }
    }
}

/// The result of a Keystone query.
#[derive(Debug, Clone)]
pub struct QueryResult {
    pub columns: Vec<String>,
    pub rows: Vec<Row>,
}

impl QueryResult {
    /// A query result; the metadata is not kept.
    pub fn new(columns: Vec<String>, rows: Vec<Row>, meta: Option<()>) -> (r: QueryResult)
        ensures
            r.columns@ == columns@,
            r.rows@ == rows@,
    {
        QueryResult { columns, rows }
    }
}

/// A client of a Keystone node.
pub struct KeystoneClient;

/// A live Keystone connection.
pub struct RealKeystone {
    pub client: KeystoneClient,
}

/// Errors raised while building priors from Keystone data.
#[derive(Debug, Clone, PartialEq)]
pub enum BridgeError {
    Keystone(KeystoneError),
    EmptyResult,
    Model(String),
}

/// Sort direction of a query.
#[derive(Debug, Clone, Copy, PartialEq, Eq, Structural)]
pub enum Order {
    Asc,
    Desc,
}

/// A Keystone table: its name and columns.
pub trait Table {
    /// The table's name.
    spec fn table_name() -> Seq<char>;

    /// The table's name.
    fn name() -> (r: &'static str)
        ensures
            r@ == Self::table_name(),
    ;

    /// The table's columns.
    spec fn table_columns() -> Seq<Seq<char>>;

    /// The table's columns.
    fn columns() -> (r: Vec<&'static str>)
        ensures
            r@.map_values(|c: &'static str| c@) == Self::table_columns(),
    ;
}

/// The table of per-model outcome feedback.
pub struct FeedbackTable;

impl Table for FeedbackTable {
    open spec fn table_name() -> Seq<char> {
        "augur_feedback"@
    }

    fn name() -> (r: &'static str) {
        "augur_feedback"
    }

    open spec fn table_columns() -> Seq<Seq<char>> {
        seq!["model_id"@, "outcome"@]
    }

    fn columns() -> (r: Vec<&'static str>) {
        let mut v: Vec<&'static str> = Vec::new();
        v.push("model_id");
        v.push("outcome");
        assert(v@.map_values(|c: &'static str| c@) =~= seq!["model_id"@, "outcome"@]);
        v
    }
}

/// The table of vector memories and their similarity scores.
pub struct MemoryTable;

impl Table for MemoryTable {
    open spec fn table_name() -> Seq<char> {
        "augur_memories"@
    }

    fn name() -> (r: &'static str) {
        "augur_memories"
    }

    open spec fn table_columns() -> Seq<Seq<char>> {
        seq!["strategy_id"@, "similarity"@]
    }

    fn columns() -> (r: Vec<&'static str>) {
        let mut v: Vec<&'static str> = Vec::new();
        v.push("strategy_id");
        v.push("similarity");
        assert(v@.map_values(|c: &'static str| c@) =~= seq!["strategy_id"@, "similarity"@]);
        v
    }
}

/// A `SELECT` over table `T` with equality filters on columns, an order and
/// a limit; `V` is the type of the filter values, passed as positional
/// parameters.
pub struct QueryBuilder<T: Table, V> {
    columns: Vec<String>,
    values: Vec<V>,
    order: Option<(String, Order)>,
    limit: Option<usize>,
    marker: std::marker::PhantomData<T>,
}

/// ` AND `-separated `col = $k` conditions, numbered from 1.
pub open spec fn conditions(cols: Seq<Seq<char>>) -> Seq<char>
    decreases cols.len(),
{
    if cols.len() == 0 {
        seq![]
    } else if cols.len() == 1 {
        cols[0] + " = $"@ + crate::util::decimal(1)
    } else {
        conditions(cols.drop_last()) + " AND "@ + cols.last() + " = $"@ + crate::util::decimal(cols.len())
    }
}

/// The SQL text of a query.
pub open spec fn query_text(table: Seq<char>, cols: Seq<Seq<char>>, order: Option<(Seq<char>, Order)>, limit: Option<usize>) -> Seq<char> {
    "SELECT * FROM "@ + table + (if cols.len() > 0 { " WHERE "@ + conditions(cols) } else { seq![] })
        + match order {
            Some((c, o)) => " ORDER BY "@ + c + " "@ + (match o {
                Order::Asc => "ASC"@,
                Order::Desc => "DESC"@,
            }),
            None => seq![],
        }
        + match limit {
            Some(n) => " LIMIT "@ + crate::util::decimal(n as nat),
            None => seq![],
        }
}

impl<T: Table, V> QueryBuilder<T, V> {
    /// The filtered columns, in order.
    pub closed spec fn filter_columns(&self) -> Seq<Seq<char>> {
        names_v(self.columns@)
    }

    /// The filter values, in order.
    pub closed spec fn filter_values(&self) -> Seq<V> {
        self.values@
    }

    /// The order, if any.
    pub closed spec fn ordering(&self) -> Option<(Seq<char>, Order)> {
        match self.order {
            Some((c, o)) => Some((c@, o)),
            None => None,
        }
    }

    /// The limit, if any.
    pub closed spec fn row_limit(&self) -> Option<usize> {
        self.limit
    }

    /// A query with no filter, order or limit.
    pub fn new() -> (r: Self)
        ensures
            r.filter_columns() == Seq::<Seq<char>>::empty(),
            r.filter_values() == Seq::<V>::empty(),
            r.ordering() is None,
            r.row_limit() is None,
    {
        let r = QueryBuilder {
            columns: Vec::new(),
            values: Vec::new(),
            order: None,
            limit: None,
            marker: std::marker::PhantomData,
        };
        assert(r.filter_columns() =~= Seq::<Seq<char>>::empty());
        r
    }

    /// Adds the filter `col = value`.
    pub fn filter_eq(self, col: &str, value: V) -> (r: Self)
        ensures
            r.filter_columns() == self.filter_columns().push(col@),
            r.filter_values() == self.filter_values().push(value),
            r.ordering() == self.ordering(),
            r.row_limit() == self.row_limit(),
    {
        let mut b = self;
        let ghost c0 = b.filter_columns();
        b.columns.push(String::from_str(col));
        b.values.push(value);
        assert(b.filter_columns() =~= c0.push(col@));
        b
    }

    /// Orders the rows by `col`.
    pub fn order_by(self, col: &str, order: Order) -> (r: Self)
        ensures
            r.filter_columns() == self.filter_columns(),
            r.filter_values() == self.filter_values(),
            r.ordering() == Some((col@, order)),
            r.row_limit() == self.row_limit(),
    {
        let mut b = self;
        b.order = Some((String::from_str(col), order));
        b
    }

    /// Returns at most `n` rows.
    pub fn limit(self, n: usize) -> (r: Self)
        ensures
            r.filter_columns() == self.filter_columns(),
            r.filter_values() == self.filter_values(),
            r.ordering() == self.ordering(),
            r.row_limit() == Some(n),
    {
        let mut b = self;
        b.limit = Some(n);
        b
    }

    /// The SQL text and its positional parameters, the filter values in order.
    pub fn build(self) -> (r: (String, Vec<V>))
        ensures
            r.0@ == query_text(T::table_name(), self.filter_columns(), self.ordering(), self.row_limit()),
            r.1@ == self.filter_values(),
    {
        let QueryBuilder { columns, values, order, limit, .. } = self;
        let ghost cols = names_v(columns@);
        let mut sql = String::from_str("SELECT * FROM ");
        sql.append(T::name());
        let ghost start = sql@;
        if columns.len() > 0 {
            sql.append(" WHERE ");
            let ghost w = sql@;
            let mut i: usize = 0;
            while i < columns.len()
                invariant
                    i <= columns@.len(),
                    cols == names_v(columns@),
                    sql@ == w + conditions(cols.take(i as int)),
                decreases columns.len() - i,
            {
                proof {
                    assert(cols.take(i + 1).drop_last() =~= cols.take(i as int));
                    assert(cols.take(i + 1).last() == columns@[i as int]@);
                }
                if i > 0 {
                    sql.append(" AND ");
                }
                sql.append(columns[i].as_str());
                sql.append(" = $");
                crate::util::push_decimal(&mut sql, (i as u64) + 1);
                proof {
                    if i == 0 {
                        assert(cols.take(1) =~= seq![cols[0]]);
                    }
                    assert(sql@ =~= w + conditions(cols.take(i + 1)));
                }
                i += 1;
            }
            proof {
                assert(cols.take(cols.len() as int) =~= cols);
            }
        }
        let ghost mid = sql@;
        match &order {
            Some((c, o)) => {
                sql.append(" ORDER BY ");
                sql.append(c.as_str());
                sql.append(" ");
                match o {
                    Order::Asc => sql.append("ASC"),
                    Order::Desc => sql.append("DESC"),
                }
            },
            None => {},
        }
        let ghost mid2 = sql@;
        match limit {
            Some(n) => {
                sql.append(" LIMIT ");
                crate::util::push_decimal(&mut sql, n as u64);
            },
            None => {},
        }
        proof {
            let ov = match order {
                Some((c, o)) => Some((c@, o)),
                None => None,
            };
            assert(sql@ =~= query_text(T::table_name(), cols, ov, limit));
        }
        (sql, values)
    }
}

/// Relational summary of past outcomes used to seed a Beta prior.
#[derive(Debug, Clone, Copy, PartialEq, Eq, Structural)]
pub struct RelationalPriorData {
    pub successes: u64,
    pub failures: u64,
}

/// How a cell counts in the tally.
#[derive(Debug, Clone, Copy, PartialEq, Eq, Structural)]
pub enum Outcome {
    Success,
    Failure,
    Neither,
}

/// Whether a byte is an ASCII decimal digit.
pub open spec fn is_digit_byte(b: u8) -> bool {
    48 <= b <= 57
}

/// Whether every byte is an ASCII decimal digit.
pub open spec fn all_digit_bytes(s: Seq<u8>) -> bool {
    forall|i: int| 0 <= i < s.len() ==> is_digit_byte(#[trigger] s[i])
}

/// The value of ASCII decimal digits.
pub open spec fn bytes_value(s: Seq<u8>) -> int
    decreases s.len(),
{
    if s.len() == 0 {
        0
    } else {
        bytes_value(s.drop_last()) * 10 + (s.last() - 48)
    }
}

/// The integer that bytes spell: an optional `+` or `-`, then one or more
/// ASCII digits.
pub open spec fn int_text(b: Seq<u8>) -> Option<int> {
    let signed = b.len() > 0 && (b[0] == 43 || b[0] == 45);
    let digits = if signed { b.drop_first() } else { b };
    if digits.len() > 0 && all_digit_bytes(digits) {
        if signed && b[0] == 45 { Some(-bytes_value(digits)) } else { Some(bytes_value(digits)) }
    } else {
        None
    }
}

/// The bytes of a text whose characters are all below 256.
pub open spec fn ascii_bytes(t: Seq<char>) -> Seq<u8> {
    t.map_values(|c: char| c as u8)
}

/// How a cell counts: as an integer when it spells one, else as text.
pub open spec fn outcome_of(cell: Option<Seq<u8>>) -> Outcome {
    match cell {
        None => Outcome::Neither,
        Some(b) => match int_text(b) {
            Some(v) => if v == 1 { Outcome::Success } else if v == 0 { Outcome::Failure } else { Outcome::Neither },
            None => if b == ascii_bytes("success"@) {
                Outcome::Success
            } else if b == ascii_bytes("failure"@) {
                Outcome::Failure
            } else {
                Outcome::Neither
            },
        },
    }
}

/// The position of the first column named `outcome` from `i` on.
pub open spec fn find_outcome_from(names: Seq<Seq<char>>, i: int) -> Option<int>
    decreases names.len() - i,
{
    if i < 0 || i >= names.len() {
        None
    } else if names[i] == "outcome"@ {
        Some(i)
    } else {
        find_outcome_from(names, i + 1)
    }
}

/// The position of the first column named `outcome`, else 0.
pub open spec fn outcome_column(names: Seq<Seq<char>>) -> int {
    match find_outcome_from(names, 0) {
        Some(k) => k,
        None => 0,
    }
}

/// How a row counts.
pub open spec fn row_outcome(r: RowV) -> Outcome {
    let k = outcome_column(r.column_names);
    if 0 <= k < r.values.len() { outcome_of(r.values[k]) } else { Outcome::Neither }
}

/// The successes and failures among rows.
pub open spec fn tally(rows: Seq<RowV>) -> (nat, nat)
    decreases rows.len(),
{
    if rows.len() == 0 {
        (0, 0)
    } else {
        let (s, f) = tally(rows.drop_last());
        match row_outcome(rows.last()) {
            Outcome::Success => (s + 1, f),
            Outcome::Failure => (s, f + 1),
            Outcome::Neither => (s, f),
        }
    }
}

/// `x` capped at 2.
pub open spec fn cap2(x: int) -> int {
    if x >= 2 { 2 } else { x }
}

/// Classifies a cell's bytes.
fn classify(b: &Vec<u8>) -> (o: Outcome)
    ensures
        o == outcome_of(Some(b@)),
{
    let n = b.len();
    let signed = n > 0 && (b[0] == 43u8 || b[0] == 45u8);
    let start: usize = if signed { 1 } else { 0 };
    let ghost digits = if signed { b@.drop_first() } else { b@ };
    proof {
        assert(digits =~= b@.subrange(start as int, n as int));
    }
    let mut i = start;
    let mut state: u8 = 0;
    let mut all_digits = true;
    while i < n
        invariant
            start <= i <= n,
            n == b@.len(),
            digits == b@.subrange(start as int, n as int),
            all_digits ==> forall|k: int| start <= k < i ==> is_digit_byte(#[trigger] b@[k]),
            !all_digits ==> exists|k: int| start <= k < i && !is_digit_byte(#[trigger] b@[k]),
            all_digits ==> state == cap2(bytes_value(b@.subrange(start as int, i as int))),
            all_digits ==> bytes_value(b@.subrange(start as int, i as int)) >= 0,
        decreases n - i,
    {
        let c = b[i];
        if c < 48u8 || c > 57u8 {
            all_digits = false;
        } else if all_digits {
            proof {
                let p = b@.subrange(start as int, i as int);
                assert(b@.subrange(start as int, i + 1).drop_last() =~= p);
                assert(b@.subrange(start as int, i + 1).last() == c);
            }
            if state == 0 {
                state = if c - 48u8 >= 2 { 2 } else { c - 48u8 };
            } else {
                state = 2;
            }
        }
        i += 1;
    }
    proof {
        assert(b@.subrange(start as int, n as int) =~= digits);
        if !all_digits {
            let k = choose|k: int| start <= k < n && !is_digit_byte(#[trigger] b@[k]);
            assert(digits[k - start] == b@[k]);
        }
    }
    if all_digits && n > start {
        if state == 1 && !(signed && b[0] == 45u8) {
            return Outcome::Success;
        }
        if state == 0 {
            return Outcome::Failure;
        }
        return Outcome::Neither;
    }
    proof {
        let signed2 = b@.len() > 0 && (b@[0] == 43 || b@[0] == 45);
        assert(signed2 == signed);
        if !all_digits {
            let k = choose|k: int| start <= k < n && !is_digit_byte(#[trigger] b@[k]);
            assert(digits[k - start] == b@[k]);
            assert(!is_digit_byte(digits[k - start]));
        } else {
            assert(n <= start);
            assert(digits.len() == 0);
        }
        let d2 = if signed2 { b@.drop_first() } else { b@ };
        assert(d2 == digits);
        assert(!(d2.len() > 0 && all_digit_bytes(d2)));
        assert(int_text(b@) is None);
    }
    let s = "success";
    let f = "failure";
    if bytes_equal(b, s) {
        Outcome::Success
    } else if bytes_equal(b, f) {
        Outcome::Failure
    } else {
        Outcome::Neither
    }
}

/// Whether the bytes are the ASCII text `t`.
fn bytes_equal(b: &Vec<u8>, t: &str) -> (r: bool)
    ensures
        r == (b@ == ascii_bytes(t@)),
{
    let tv = crate::util::chars_of(t);
    let ghost m = ascii_bytes(t@);
    if b.len() != tv.len() {
        return false;
    }
    let mut i: usize = 0;
    while i < b.len()
        invariant
            tv@ == t@,
            m == ascii_bytes(t@),
            b@.len() == tv@.len(),
            i <= b@.len(),
            forall|k: int| 0 <= k < i ==> b@[k] == m[k],
        decreases b.len() - i,
    {
        let c = tv[i];
        if b[i] != (c as u8) {
            return false;
        }
        i += 1;
    }
    assert(b@ =~= m);
    true
}

/// The position of the first column named `outcome`, else 0.
fn find_outcome_column(names: &[String]) -> (k: usize)
    ensures
        k == outcome_column(names_v(names@)),
{
    let ghost nv = names_v(names@);
    let mut i: usize = 0;
    while i < names.len()
        invariant
            i <= names@.len(),
            nv == names_v(names@),
            find_outcome_from(nv, 0) == find_outcome_from(nv, i as int),
        decreases names.len() - i,
    {
        if str_eq(names[i].as_str(), "outcome") {
            proof {
                assert(nv[i as int] == names@[i as int]@);
            }
            return i;
        }
        proof {
            assert(nv[i as int] == names@[i as int]@);
        }
        i += 1;
    }
    0
}

/// Tallies `success`/`failure` outcomes from a feedback query result.
pub fn tally_outcomes(result: &QueryResult) -> (d: RelationalPriorData)
    ensures
        d.successes == tally(result.rows@.map_values(|r: Row| r@)).0,
        d.failures == tally(result.rows@.map_values(|r: Row| r@)).1,
{
    let ghost rv = result.rows@.map_values(|r: Row| r@);
    let mut successes: u64 = 0;
    let mut failures: u64 = 0;
    let mut i: usize = 0;
    while i < result.rows.len()
        invariant
            i <= result.rows@.len(),
            rv == result.rows@.map_values(|r: Row| r@),
            successes == tally(rv.take(i as int)).0,
            failures == tally(rv.take(i as int)).1,
            successes + failures <= i,
        decreases result.rows.len() - i,
    {
        let row = &result.rows[i];
        proof {
            assert(rv.take(i + 1).drop_last() =~= rv.take(i as int));
            assert(rv.take(i + 1).last() == row@);
        }
        let k = find_outcome_column(row.column_names());
        let o = match row.cell(k) {
            Some(b) => classify(b),
            None => Outcome::Neither,
        };
        match o {
            Outcome::Success => {
                successes = successes + 1;
            },
            Outcome::Failure => {
                failures = failures + 1;
            },
            Outcome::Neither => {},
        }
        i += 1;
    }
    proof {
        assert(rv.take(result.rows@.len() as int) =~= rv);
    }
    RelationalPriorData { successes, failures }
}

} // verus!
