//! The syntax tree that the parser produces, and its mathematical model.

use vstd::prelude::*;

verus! {

/// The four special float literals.
#[derive(Debug, Clone, Copy, PartialEq, Eq)]
pub enum SpecialFloat {
    Infinity,
    NegInfinity,
    Nan,
    NegNan,
}

impl View for SpecialFloat {
    type V = SpecialFloat;

    open spec fn view(&self) -> SpecialFloat {
        *self
    }
}

/// The type of a TOML value.
#[derive(Debug, Clone, Copy, PartialEq, Eq)]
pub enum Type {
    String,
    Integer,
    Float,
    Boolean,
    Datetime,
    Array,
    Table,
}

impl Type {
    /// The name of the type.
    pub fn to_str(self) -> (r: &'static str)
        ensures
            r@ == self.spec_name(),
    {
        match self {
            Type::String => "string",
            Type::Integer => "integer",
            Type::Float => "float",
            Type::Boolean => "boolean",
            Type::Datetime => "datetime",
            Type::Array => "array",
            Type::Table => "table",
        }
    }

    pub open spec fn spec_name(self) -> Seq<char> {
        match self {
            Type::String => "string"@,
            Type::Integer => "integer"@,
            Type::Float => "float"@,
            Type::Boolean => "boolean"@,
            Type::Datetime => "datetime"@,
            Type::Array => "array"@,
            Type::Table => "table"@,
        }
    }
}

/// A table: its entries in the order in which they were defined. No key occurs twice.
pub type Table = Vec<(String, Value)>;

/// A parsed TOML value. Numbers and date-times keep the bytes that spelled them.
#[derive(Debug, PartialEq)]
pub enum Value {
    /// String; any escape sequences are already parsed
    String(String),
    /// Decimal integer
    Integer(Vec<u8>),
    /// Binary integer (without the 0b prefix)
    BinaryInt(Vec<u8>),
    /// Octal integer (without the 0o prefix)
    OctalInt(Vec<u8>),
    /// Hexadecimal integer (without the 0x prefix)
    HexInt(Vec<u8>),
    /// Float
    Float(Vec<u8>),
    /// Special float (inf, nan, etc)
    SpecialFloat(SpecialFloat),
    /// Boolean
    Boolean(bool),
    /// Offset Datetime
    OffsetDatetime(Vec<u8>),
    /// Local Datetime
    LocalDatetime(Vec<u8>),
    /// Local Date
    LocalDate(Vec<u8>),
    /// Local Time
    LocalTime(Vec<u8>),
    /// Just a regular inline array
    Array(Vec<Value>),
    /// Table defined by a table header. This is immutable aside from being able to add subtables
    Table(Table),
    /// Super table created when parsing a subtable header. This can still be explicitly defined
    /// later turning it into a `Table`
    UndefinedTable(Table),
    /// A table defined by dotted keys. This can be freely added to by other dotted keys
    DottedKeyTable(Table),
    /// Inline table
    InlineTable(Table),
    /// Array of tables
    ArrayOfTables(Vec<Table>),
}

/// The model of a table: key and value of each entry, in order.
pub type STable = Seq<(Seq<char>, SValue)>;

/// The model of a parsed value.
pub enum SValue {
    String(Seq<char>),
    Integer(Seq<u8>),
    BinaryInt(Seq<u8>),
    OctalInt(Seq<u8>),
    HexInt(Seq<u8>),
    Float(Seq<u8>),
    SpecialFloat(SpecialFloat),
    Boolean(bool),
    OffsetDatetime(Seq<u8>),
    LocalDatetime(Seq<u8>),
    LocalDate(Seq<u8>),
    LocalTime(Seq<u8>),
    Array(Seq<SValue>),
    Table(STable),
    UndefinedTable(STable),
    DottedKeyTable(STable),
    InlineTable(STable),
    ArrayOfTables(Seq<STable>),
}

impl View for Value {
    type V = SValue;

    open spec fn view(&self) -> SValue
        decreases self,
    {
        match self {
            Value::String(s) => SValue::String(s@),
            Value::Integer(b) => SValue::Integer(b@),
            Value::BinaryInt(b) => SValue::BinaryInt(b@),
            Value::OctalInt(b) => SValue::OctalInt(b@),
            Value::HexInt(b) => SValue::HexInt(b@),
            Value::Float(b) => SValue::Float(b@),
            Value::SpecialFloat(f) => SValue::SpecialFloat(*f),
            Value::Boolean(b) => SValue::Boolean(*b),
            Value::OffsetDatetime(b) => SValue::OffsetDatetime(b@),
            Value::LocalDatetime(b) => SValue::LocalDatetime(b@),
            Value::LocalDate(b) => SValue::LocalDate(b@),
            Value::LocalTime(b) => SValue::LocalTime(b@),
            Value::Array(a) => SValue::Array(
                Seq::new(
                    a@.len(),
                    |i: int|
                        if 0 <= i < a@.len() {
                            a@[i].view()
                        } else {
                            SValue::Boolean(false)
                        },
                ),
            ),
            Value::Table(t) => SValue::Table(tview(*t)),
            Value::UndefinedTable(t) => SValue::UndefinedTable(tview(*t)),
            Value::DottedKeyTable(t) => SValue::DottedKeyTable(tview(*t)),
            Value::InlineTable(t) => SValue::InlineTable(tview(*t)),
            Value::ArrayOfTables(a) => SValue::ArrayOfTables(atview(*a)),
        }
    }
}

/// The model of a table.
pub open spec fn tview(t: Table) -> STable
    decreases t,
{
    Seq::new(
        t@.len(),
        |i: int|
            if 0 <= i < t@.len() {
                (t@[i].0@, t@[i].1.view())
            } else {
                (Seq::empty(), SValue::Boolean(false))
            },
    )
}

/// The model of an array of tables.
pub open spec fn atview(a: Vec<Table>) -> Seq<STable>
    decreases a,
{
    Seq::new(a@.len(), |i: int| if 0 <= i < a@.len() { tview(a@[i]) } else { Seq::empty() })
}

/// The models of a sequence of values.
pub open spec fn values_view(a: Seq<Value>) -> Seq<SValue> {
    Seq::new(a.len(), |i: int| a[i]@)
}

/// An array is modelled by the models of its values.
pub proof fn lemma_array_view(a: Vec<Value>)
    ensures
        Value::Array(a)@ == SValue::Array(values_view(a@)),
{
    if let SValue::Array(s) = Value::Array(a)@ {
        assert(s =~= values_view(a@));
    }
}

/// The type of a modelled value.
pub open spec fn spec_type(v: SValue) -> Type {
    match v {
        SValue::String(_) => Type::String,
        SValue::Integer(_) | SValue::BinaryInt(_) | SValue::OctalInt(_) | SValue::HexInt(_) => Type::Integer,
        SValue::Float(_) | SValue::SpecialFloat(_) => Type::Float,
        SValue::Boolean(_) => Type::Boolean,
        SValue::OffsetDatetime(_) | SValue::LocalDatetime(_) | SValue::LocalDate(_) | SValue::LocalTime(_) => Type::Datetime,
        SValue::Array(_) | SValue::ArrayOfTables(_) => Type::Array,
        SValue::Table(_) | SValue::InlineTable(_) | SValue::UndefinedTable(_) | SValue::DottedKeyTable(_) => Type::Table,
    }
}

impl Value {
    /// The TOML type of this value.
    pub fn typ(&self) -> (r: Type)
        ensures
            r == spec_type(self@),
    {
        match self {
            Value::String(_) => Type::String,
            Value::Integer(_) | Value::BinaryInt(_) | Value::OctalInt(_) | Value::HexInt(_) => Type::Integer,
            Value::Float(_) | Value::SpecialFloat(_) => Type::Float,
            Value::Boolean(_) => Type::Boolean,
            Value::OffsetDatetime(_) | Value::LocalDatetime(_) | Value::LocalDate(_) | Value::LocalTime(_) => Type::Datetime,
            Value::Array(_) | Value::ArrayOfTables(_) => Type::Array,
            Value::Table(_) | Value::InlineTable(_) | Value::UndefinedTable(_) | Value::DottedKeyTable(_) => Type::Table,
        }
    }
}

} // verus!
