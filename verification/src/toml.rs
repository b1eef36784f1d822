//! TOML documents, read by `toml_edit` into plain values the rest of the library walks.
//!
//! Parsing TOML is `toml_edit`'s. What comes out of it is a tree of tables whose keys keep
//! the byte offset they are written at, so a problem can name the line it is on.

use vstd::prelude::*;

verus! {

/// A TOML value, as far as the theme and config formats read one.
#[derive(Debug)]
pub enum TomlValue {
    /// A string.
    Str(String),
    /// An integer.
    Int(i64),
    /// A table written with a `[header]`.
    Table(TomlTable),
    /// A table written inline, `{ ... }`.
    Inline(TomlTable),
    /// An array.
    Array(Vec<TomlValue>),
    /// An array of tables, `[[header]]`.
    Tables(Vec<TomlTable>),
    /// Any other value, by the name TOML gives its type.
    Other(String),
}

/// One key of a table and what it holds.
#[derive(Debug)]
pub struct TomlEntry {
    /// The key, unquoted.
    pub key: String,
    /// The byte offset the key is written at, when the document says.
    pub offset: Option<usize>,
    /// The value.
    pub value: TomlValue,
}

/// A table: its keys in the order the document writes them.
#[derive(Debug)]
pub struct TomlTable {
    /// The byte offset the table's header is written at, when the document says.
    pub offset: Option<usize>,
    /// The keys, in document order.
    pub entries: Vec<TomlEntry>,
}

/// A document `toml_edit` could not parse.
#[derive(Debug)]
pub struct TomlSyntax {
    /// What `toml_edit` says is wrong, as its error displays it.
    pub message: String,
}

/// What `toml_edit::ImDocument::parse` reads `source` as, lowered into plain values.
pub uninterp spec fn toml_document(source: Seq<char>) -> Result<TomlTable, TomlSyntax>;

#[verifier::external_type_specification]
#[verifier::external_body]
pub struct ExTomlTable(toml_edit::Table);

#[verifier::external_type_specification]
#[verifier::external_body]
pub struct ExTomlInlineTable(toml_edit::InlineTable);

#[verifier::external_type_specification]
#[verifier::external_body]
pub struct ExTomlItem(toml_edit::Item);

#[verifier::external_type_specification]
#[verifier::external_body]
pub struct ExTomlValue(toml_edit::Value);

/// Parses `source` with `toml_edit::ImDocument::parse`, which keeps spans, and lowers the
/// root table. The contract names the result: it is a function of `source` alone.
#[verifier::external_body]
pub(crate) fn parse_toml(source: &str) -> (document: Result<TomlTable, TomlSyntax>)
    ensures
        document == toml_document(source@),
{
    match toml_edit::ImDocument::parse(source) {
        Ok(document) => Ok(lower_table(document.as_table())),
        Err(error) => Err(TomlSyntax { message: error.to_string() }),
    }
}

/// Lowers a `toml_edit::Table`: `Table::iter` for the keys in order, `Table::key` and
/// `Key::span` for where each is written, `Table::span` for the header. Claims nothing:
/// only `parse_toml` calls it.
#[verifier::external_body]
fn lower_table(table: &toml_edit::Table) -> TomlTable {
    let mut entries = Vec::new();
    for (key, item) in table.iter() {
        let offset = table.key(key).and_then(|key| key.span()).map(|span| span.start);
        entries.push(TomlEntry { key: key.to_owned(), offset, value: lower_item(item) });
    }
    TomlTable { offset: table.span().map(|span| span.start), entries }
}

/// Lowers a `toml_edit::InlineTable` the way `lower_table` lowers a table, through
/// `InlineTable::iter`, `InlineTable::key` and `Key::span`. Claims nothing.
#[verifier::external_body]
fn lower_inline(table: &toml_edit::InlineTable) -> TomlTable {
    let mut entries = Vec::new();
    for (key, value) in table.iter() {
        let offset = table.key(key).and_then(|key| key.span()).map(|span| span.start);
        entries.push(TomlEntry { key: key.to_owned(), offset, value: lower_value(value) });
    }
    TomlTable { offset: table.span().map(|span| span.start), entries }
}

/// Lowers a `toml_edit::Item`, one arm per variant. Claims nothing.
#[verifier::external_body]
fn lower_item(item: &toml_edit::Item) -> TomlValue {
    match item {
        toml_edit::Item::Value(value) => lower_value(value),
        toml_edit::Item::Table(table) => TomlValue::Table(lower_table(table)),
        toml_edit::Item::ArrayOfTables(tables) => TomlValue::Tables(
            tables.iter().map(lower_table).collect(),
        ),
        toml_edit::Item::None => TomlValue::Other("none".to_owned()),
    }
}

/// Lowers a `toml_edit::Value`, one arm per variant; the variants the formats never read
/// are kept as the name `toml_edit` gives their type. Claims nothing.
#[verifier::external_body]
fn lower_value(value: &toml_edit::Value) -> TomlValue {
    match value {
        toml_edit::Value::String(text) => TomlValue::Str(text.value().to_owned()),
        toml_edit::Value::Integer(number) => TomlValue::Int(*number.value()),
        toml_edit::Value::InlineTable(table) => TomlValue::Inline(lower_inline(table)),
        toml_edit::Value::Array(array) => TomlValue::Array(array.iter().map(lower_value).collect()),
        toml_edit::Value::Float(_) => TomlValue::Other("float".to_owned()),
        toml_edit::Value::Boolean(_) => TomlValue::Other("boolean".to_owned()),
        toml_edit::Value::Datetime(_) => TomlValue::Other("datetime".to_owned()),
    }
}

/// The name TOML gives the type of `value`.
pub open spec fn kind_name_spec(value: TomlValue) -> Seq<char> {
    match value {
        TomlValue::Str(_) => seq!['s', 't', 'r', 'i', 'n', 'g'],
        TomlValue::Int(_) => seq!['i', 'n', 't', 'e', 'g', 'e', 'r'],
        TomlValue::Table(_) => seq!['t', 'a', 'b', 'l', 'e'],
        TomlValue::Inline(_) => seq!['i', 'n', 'l', 'i', 'n', 'e', ' ', 't', 'a', 'b', 'l', 'e'],
        TomlValue::Array(_) => seq!['a', 'r', 'r', 'a', 'y'],
        TomlValue::Tables(_) => seq![
            'a',
            'r',
            'r',
            'a',
            'y',
            ' ',
            'o',
            'f',
            ' ',
            't',
            'a',
            'b',
            'l',
            'e',
            's',
        ],
        TomlValue::Other(name) => name@,
    }
}

impl TomlValue {
    /// The name TOML gives this value's type.
    pub fn kind_name(&self) -> (name: String)
        ensures
            name@ == kind_name_spec(*self),
    {
        let name = match self {
            TomlValue::Str(_) => "string",
            TomlValue::Int(_) => "integer",
            TomlValue::Table(_) => "table",
            TomlValue::Inline(_) => "inline table",
            TomlValue::Array(_) => "array",
            TomlValue::Tables(_) => "array of tables",
            TomlValue::Other(name) => {
                return name.clone();
            },
        };
        proof {
            reveal_strlit("string");
            reveal_strlit("integer");
            reveal_strlit("table");
            reveal_strlit("inline table");
            reveal_strlit("array");
            reveal_strlit("array of tables");
        }
        name.to_owned()
    }

    /// Whether this is a table, written either way.
    pub open spec fn is_table_like(self) -> bool {
        self is Table || self is Inline
    }
}

/// The 1-based line byte `offset` of `bytes` falls on: one more than the newlines before it.
pub open spec fn line_at(bytes: Seq<u8>, offset: int) -> nat
    decreases offset,
{
    if offset <= 0 || bytes.len() == 0 {
        1
    } else if offset > bytes.len() {
        line_at(bytes, bytes.len() as int)
    } else {
        line_at(bytes, offset - 1) + if bytes[offset - 1] == 10u8 { 1nat } else { 0nat }
    }
}

/// The line byte `offset` of `source` falls on, or 0 when the document gives no offset.
pub open spec fn line_of_spec(bytes: Seq<u8>, offset: Option<usize>) -> nat {
    match offset {
        Some(at) => line_at(bytes, at as int),
        None => 0,
    }
}

/// The line number the library records for `offset`: its line, or `usize::MAX` for a line
/// past it.
pub open spec fn line_number(bytes: Seq<u8>, offset: Option<usize>) -> usize {
    if line_of_spec(bytes, offset) <= usize::MAX {
        line_of_spec(bytes, offset) as usize
    } else {
        usize::MAX
    }
}

/// The 1-based line byte `offset` of `source` falls on; a line past `usize::MAX`, which
/// no text held in memory reaches, reads as `usize::MAX`.
pub fn line_at_exec(bytes: &[u8], offset: usize) -> (line: usize)
    ensures
        line == if line_at(bytes@, offset as int) <= usize::MAX {
            line_at(bytes@, offset as int)
        } else {
            usize::MAX as nat
        },
{
    let end = if offset < bytes.len() { offset } else { bytes.len() };
    let mut newlines: usize = 0;
    let mut i: usize = 0;
    proof {
        assert(line_at(bytes@, offset as int) == line_at(bytes@, end as int));
    }
    while i < end
        invariant
            i <= end,
            end <= bytes@.len(),
            newlines + 1 == line_at(bytes@, i as int),
            newlines <= i,
        decreases end - i,
    {
        if bytes[i] == 10u8 {
            newlines = newlines + 1;
        }
        i = i + 1;
    }
    if newlines < usize::MAX {
        newlines + 1
    } else {
        usize::MAX
    }
}

/// The line `offset` falls on, or 0 when there is no offset.
pub fn line_of(bytes: &[u8], offset: Option<usize>) -> (line: usize)
    ensures
        line == line_number(bytes@, offset),
{
    match offset {
        Some(at) => line_at_exec(bytes, at),
        None => 0,
    }
}

} // verus!
