//! The value, row and schema model shared by every layer.

pub mod btree;
pub mod key;
pub mod laws;
pub mod model;
pub mod order;
pub mod page;
pub mod table;
pub mod text;

use std::cmp::Ordering;
use vstd::prelude::*;
use vstd::std_specs::cmp::PartialEqSpecImpl;
use vstd::string::*;
use self::order::{key_lt, text_less, text_lt, text_equal};
use self::text::{fixed_point, push_fixed_point, push_signed_decimal, signed_decimal};

verus! {

/// The mathematical content of a [`Value`].
pub enum ValueView {
    Null,
    Integer(i64),
    Float(i64),
    Text(Seq<char>),
    Boolean(bool),
}

/// A single cell. `Float` holds a fixed-point number scaled by one thousand.
#[derive(Debug)]
pub enum Value {
    Null,
    Integer(i64),
    Float(i64),
    Text(String),
    Boolean(bool),
}

impl View for Value {
    type V = ValueView;

    open spec fn view(&self) -> ValueView {
        match self {
            Value::Null => ValueView::Null,
            Value::Integer(i) => ValueView::Integer(*i),
            Value::Float(f) => ValueView::Float(*f),
            Value::Text(s) => ValueView::Text(s@),
            Value::Boolean(b) => ValueView::Boolean(*b),
        }
    }
}

impl Clone for Value {
    fn clone(&self) -> (res: Self)
        ensures
            res@ == self@,
    {
        match self {
            Value::Null => Value::Null,
            Value::Integer(i) => Value::Integer(*i),
            Value::Float(f) => Value::Float(*f),
            Value::Text(s) => Value::Text(s.clone()),
            Value::Boolean(b) => Value::Boolean(*b),
        }
    }
}

impl PartialEq for Value {
    fn eq(&self, other: &Self) -> (res: bool) {
        match (self, other) {
            (Value::Null, Value::Null) => true,
            (Value::Integer(a), Value::Integer(b)) => *a == *b,
            (Value::Float(a), Value::Float(b)) => *a == *b,
            (Value::Text(a), Value::Text(b)) => *a == *b,
            (Value::Boolean(a), Value::Boolean(b)) => *a == *b,
            _ => false,
        }
    }
}

impl PartialEqSpecImpl for Value {
    open spec fn obeys_eq_spec() -> bool {
        true
    }

    open spec fn eq_spec(&self, other: &Self) -> bool {
        self@ == other@
    }
}

impl Eq for Value {}

/// The order that two truth values of "comes before" stand for.
pub open spec fn order_from(before: bool, after: bool) -> Ordering {
    if before {
        Ordering::Less
    } else if after {
        Ordering::Greater
    } else {
        Ordering::Equal
    }
}

/// How two values compare: values of the same kind by their content, numbers
/// by size, texts by the bytes of their UTF-8 encoding, `false` before
/// `true`. Values of different kinds, and nulls, are not ordered.
pub open spec fn compare_values(a: ValueView, b: ValueView) -> Option<Ordering> {
    match (a, b) {
        (ValueView::Integer(x), ValueView::Integer(y)) => Some(order_from(x < y, y < x)),
        (ValueView::Float(x), ValueView::Float(y)) => Some(order_from(x < y, y < x)),
        (ValueView::Text(x), ValueView::Text(y)) => Some(
            order_from(text_lt(x, y), text_lt(y, x)),
        ),
        (ValueView::Boolean(x), ValueView::Boolean(y)) => Some(order_from(!x && y, !y && x)),
        _ => None,
    }
}

/// Whether two values can be ordered: both are of the same kind and not null.
pub open spec fn comparable(a: ValueView, b: ValueView) -> bool {
    match (a, b) {
        (ValueView::Integer(_), ValueView::Integer(_)) => true,
        (ValueView::Float(_), ValueView::Float(_)) => true,
        (ValueView::Text(_), ValueView::Text(_)) => true,
        (ValueView::Boolean(_), ValueView::Boolean(_)) => true,
        _ => false,
    }
}

/// What a value looks like when shown.
pub open spec fn rendered(v: ValueView) -> Seq<char> {
    match v {
        ValueView::Null => "NULL"@,
        ValueView::Integer(i) => signed_decimal(i as int),
        ValueView::Float(f) => fixed_point(f as int),
        ValueView::Text(s) => s,
        ValueView::Boolean(b) => if b {
            "true"@
        } else {
            "false"@
        },
    }
}

impl Value {
    /// Shows the value: `NULL`, a decimal numeral, a decimal fraction, the
    /// text itself, or `true` / `false`.
    pub fn to_string(&self) -> (res: String)
        ensures
            res@ == rendered(self@),
    {
        match self {
            Value::Null => String::from_str("NULL"),
            Value::Integer(i) => {
                let mut out = String::new();
                push_signed_decimal(&mut out, *i);
                assert(out@ =~= signed_decimal(*i as int));
                out
            },
            Value::Float(f) => {
                let mut out = String::new();
                push_fixed_point(&mut out, *f);
                assert(out@ =~= fixed_point(*f as int));
                out
            },
            Value::Text(s) => s.clone(),
            Value::Boolean(b) => if *b {
                String::from_str("true")
            } else {
                String::from_str("false")
            },
        }
    }

    /// Compares two values of the same kind; `None` when they are not ordered.
    pub fn compare(&self, other: &Value) -> (res: Option<Ordering>)
        ensures
            res == compare_values(self@, other@),
    {
        match (self, other) {
            (Value::Integer(a), Value::Integer(b)) => Some(Self::order_of(*a < *b, *b < *a)),
            (Value::Float(a), Value::Float(b)) => Some(Self::order_of(*a < *b, *b < *a)),
            (Value::Text(a), Value::Text(b)) => Some(
                Self::order_of(text_less(a.as_str(), b.as_str()), text_less(b.as_str(), a.as_str())),
            ),
            (Value::Boolean(a), Value::Boolean(b)) => Some(Self::order_of(!*a && *b, !*b && *a)),
            _ => None,
        }
    }

    fn order_of(before: bool, after: bool) -> (res: Ordering)
        ensures
            res == order_from(before, after),
    {
        if before {
            Ordering::Less
        } else if after {
            Ordering::Greater
        } else {
            Ordering::Equal
        }
    }

    /// Whether the two values can be ordered.
    pub fn is_comparable(&self, other: &Value) -> (res: bool)
        ensures
            res == comparable(self@, other@),
    {
        match (self, other) {
            (Value::Integer(_), Value::Integer(_)) => true,
            (Value::Float(_), Value::Float(_)) => true,
            (Value::Text(_), Value::Text(_)) => true,
            (Value::Boolean(_), Value::Boolean(_)) => true,
            _ => false,
        }
    }

    fn rank(&self) -> (res: u8)
        ensures
            res == order::kind_rank(self@),
    {
        match self {
            Value::Null => 0,
            Value::Integer(_) => 1,
            Value::Float(_) => 2,
            Value::Text(_) => 3,
            Value::Boolean(_) => 4,
        }
    }

    /// Whether this value comes strictly before `other` in the key order.
    pub fn precedes(&self, other: &Value) -> (res: bool)
        ensures
            res == key_lt(self@, other@),
    {
        let ra = self.rank();
        let rb = other.rank();
        if ra != rb {
            return ra < rb;
        }
        match (self, other) {
            (Value::Integer(a), Value::Integer(b)) => *a < *b,
            (Value::Float(a), Value::Float(b)) => *a < *b,
            (Value::Text(a), Value::Text(b)) => text_less(a.as_str(), b.as_str()),
            (Value::Boolean(a), Value::Boolean(b)) => !*a && *b,
            _ => false,
        }
    }
}

/// The contents of a sequence of values.
pub open spec fn values_view(s: Seq<Value>) -> Seq<ValueView> {
    s.map_values(|v: Value| v@)
}

/// Copies a list of values.
pub fn clone_values(values: &Vec<Value>) -> (res: Vec<Value>)
    ensures
        values_view(res@) == values_view(values@),
{
    let mut out: Vec<Value> = Vec::new();
    let mut i: usize = 0;
    while i < values.len()
        invariant
            i <= values.len(),
            out@.len() == i,
            forall|j: int| 0 <= j < i ==> out@[j]@ == values@[j]@,
        decreases values.len() - i,
    {
        out.push(values[i].clone());
        i += 1;
    }
    assert(values_view(out@) =~= values_view(values@));
    out
}

/// A row: one value for each column, in column order.
#[derive(Debug)]
pub struct Row {
    pub values: Vec<Value>,
}

impl View for Row {
    type V = Seq<ValueView>;

    open spec fn view(&self) -> Seq<ValueView> {
        values_view(self.values@)
    }
}

impl Clone for Row {
    fn clone(&self) -> (res: Self)
        ensures
            res@ == self@,
    {
        Row { values: clone_values(&self.values) }
    }
}

impl PartialEq for Row {
    fn eq(&self, other: &Self) -> (res: bool) {
        if self.values.len() != other.values.len() {
            assert(self@.len() != other@.len());
            return false;
        }
        let mut i: usize = 0;
        while i < self.values.len()
            invariant
                i <= self.values.len(),
                self.values.len() == other.values.len(),
                forall|j: int| 0 <= j < i ==> self.values@[j]@ == other.values@[j]@,
            decreases self.values.len() - i,
        {
            if self.values[i] != other.values[i] {
                assert(self@[i as int] != other@[i as int]);
                return false;
            }
            i += 1;
        }
        assert(self@ =~= other@);
        true
    }
}

impl PartialEqSpecImpl for Row {
    open spec fn obeys_eq_spec() -> bool {
        true
    }

    open spec fn eq_spec(&self, other: &Self) -> bool {
        self@ == other@
    }
}

impl Eq for Row {}

/// The kinds of value a column can be declared to hold.
#[derive(Debug, Clone, Copy, PartialEq, Eq, Structural)]
pub enum DataType {
    Integer,
    Float,
    Text,
    Boolean,
}

/// The mathematical content of a [`Column`].
pub struct ColumnView {
    pub name: Seq<char>,
    pub data_type: DataType,
    pub primary_key: bool,
    pub nullable: bool,
}

/// The definition of one column.
#[derive(Debug)]
pub struct Column {
    pub name: String,
    pub data_type: DataType,
    pub primary_key: bool,
    pub nullable: bool,
}

impl View for Column {
    type V = ColumnView;

    open spec fn view(&self) -> ColumnView {
        ColumnView {
            name: self.name@,
            data_type: self.data_type,
            primary_key: self.primary_key,
            nullable: self.nullable,
        }
    }
}

impl Clone for Column {
    fn clone(&self) -> (res: Self)
        ensures
            res@ == self@,
    {
        Column {
            name: self.name.clone(),
            data_type: self.data_type,
            primary_key: self.primary_key,
            nullable: self.nullable,
        }
    }
}

/// Whether `i` is the first column of `cols` that is called `name`.
pub open spec fn is_first_named(cols: Seq<ColumnView>, name: Seq<char>, i: int) -> bool {
    &&& 0 <= i < cols.len()
    &&& cols[i].name == name
    &&& forall|j: int| 0 <= j < i ==> cols[j].name != name
}

/// The position of the first column called `name`, if there is one.
pub open spec fn column_position(cols: Seq<ColumnView>, name: Seq<char>) -> Option<int> {
    if exists|i: int| is_first_named(cols, name, i) {
        Some(choose|i: int| is_first_named(cols, name, i))
    } else {
        None
    }
}

/// Whether `i` is the first column of `cols` that is marked as primary key.
pub open spec fn is_first_key(cols: Seq<ColumnView>, i: int) -> bool {
    &&& 0 <= i < cols.len()
    &&& cols[i].primary_key
    &&& forall|j: int| 0 <= j < i ==> !cols[j].primary_key
}

/// The position of the primary-key column, if there is one.
pub open spec fn primary_key_position(cols: Seq<ColumnView>) -> Option<int> {
    if exists|i: int| is_first_key(cols, i) {
        Some(choose|i: int| is_first_key(cols, i))
    } else {
        None
    }
}

/// The first column called `name` is the only one that `column_position` gives.
pub proof fn lemma_column_position(cols: Seq<ColumnView>, name: Seq<char>, i: int)
    requires
        is_first_named(cols, name, i),
    ensures
        column_position(cols, name) == Some(i),
{
    let k = choose|k: int| is_first_named(cols, name, k);
    assert(k == i) by {
        if k < i {
            assert(cols[k].name != name);
        }
        if i < k {
            assert(cols[i].name != name);
        }
    }
}

/// A position that `column_position` gives is that of a column called `name`.
pub proof fn lemma_column_position_is_first(cols: Seq<ColumnView>, name: Seq<char>)
    ensures
        match column_position(cols, name) {
            Some(i) => is_first_named(cols, name, i),
            None => forall|j: int| 0 <= j < cols.len() ==> cols[j].name != name,
        },
{
    if column_position(cols, name) is None {
        assert forall|j: int| 0 <= j < cols.len() implies cols[j].name != name by {
            if cols[j].name == name {
                lemma_some_first_named(cols, name, j);
            }
        }
    }
}

/// Where some column up to `j` is called `name`, there is a first one.
pub proof fn lemma_some_first_named(cols: Seq<ColumnView>, name: Seq<char>, j: int)
    requires
        0 <= j < cols.len(),
        cols[j].name == name,
    ensures
        exists|i: int| is_first_named(cols, name, i),
    decreases j,
{
    if exists|k: int| 0 <= k < j && cols[k].name == name {
        let k = choose|k: int| 0 <= k < j && cols[k].name == name;
        lemma_some_first_named(cols, name, k);
    } else {
        assert(is_first_named(cols, name, j));
    }
}

/// The first primary-key column is the only one that `primary_key_position` gives.
pub proof fn lemma_primary_key_position(cols: Seq<ColumnView>, i: int)
    requires
        is_first_key(cols, i),
    ensures
        primary_key_position(cols) == Some(i),
{
    let k = choose|k: int| is_first_key(cols, k);
    assert(k == i) by {
        if k < i {
            assert(!cols[k].primary_key);
        }
        if i < k {
            assert(!cols[i].primary_key);
        }
    }
}

/// The ordered column definitions of a table.
#[derive(Debug)]
pub struct Schema {
    pub columns: Vec<Column>,
}

impl View for Schema {
    type V = Seq<ColumnView>;

    open spec fn view(&self) -> Seq<ColumnView> {
        self.columns@.map_values(|c: Column| c@)
    }
}

impl Clone for Schema {
    fn clone(&self) -> (res: Self)
        ensures
            res@ == self@,
    {
        let mut out: Vec<Column> = Vec::new();
        let mut i: usize = 0;
        while i < self.columns.len()
            invariant
                i <= self.columns.len(),
                out@.len() == i,
                forall|j: int| 0 <= j < i ==> out@[j]@ == self.columns@[j]@,
            decreases self.columns.len() - i,
        {
            out.push(self.columns[i].clone());
            i += 1;
        }
        let res = Schema { columns: out };
        assert(res@ =~= self@);
        res
    }
}

impl Schema {
    /// A schema of the given columns, in their order.
    pub fn new(columns: Vec<Column>) -> (res: Self)
        ensures
            res.columns == columns,
    {
        Self { columns }
    }

    /// The position of the first column called `name`.
    pub fn get_column_index(&self, name: &str) -> (res: Option<usize>)
        ensures
            match res {
                Some(i) => column_position(self@, name@) == Some(i as int),
                None => column_position(self@, name@) is None,
            },
    {
        let mut i: usize = 0;
        while i < self.columns.len()
            invariant
                i <= self.columns.len(),
                forall|j: int| 0 <= j < i ==> self@[j].name != name@,
            decreases self.columns.len() - i,
        {
            if text_equal(self.columns[i].name.as_str(), name) {
                proof {
                    lemma_column_position(self@, name@, i as int);
                }
                return Some(i);
            }
            i += 1;
        }
        None
    }

    /// The position of the first column marked as primary key.
    pub fn get_primary_key_index(&self) -> (res: Option<usize>)
        ensures
            match res {
                Some(i) => primary_key_position(self@) == Some(i as int),
                None => primary_key_position(self@) is None,
            },
    {
        let mut i: usize = 0;
        while i < self.columns.len()
            invariant
                i <= self.columns.len(),
                forall|j: int| 0 <= j < i ==> !self@[j].primary_key,
            decreases self.columns.len() - i,
        {
            if self.columns[i].primary_key {
                proof {
                    lemma_primary_key_position(self@, i as int);
                }
                return Some(i);
            }
            i += 1;
        }
        None
    }
}

} // verus!
