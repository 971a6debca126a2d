//! XMLDB (install.xml) schema types, lookups and parser.

use vstd::prelude::*;
use crate::text::{ascii_lower, ascii_lower_of, chars_eq_str, chars_of, chars_eq, decimal, push_chars, push_decimal, push_str, string_of};
use crate::seqs::{first_index, lemma_first_index, lemma_first_index_props};
use crate::numparse::{parse_u32, u32_text};
use crate::xml::{is_terminal, lemma_scan_finish, scan, scan_all, xml_event, XmlAttr, XmlCursor, XmlEvent};

verus! {

#[derive(Debug, Clone, Copy, PartialEq, Eq, Hash, Structural)]
pub enum FieldType {
    Int,
    Char,
    Text,
    Number,
    Float,
    Datetime,
    Timestamp,
    Binary,
}

/// The XMLDB `TYPE` attribute values, compared after ASCII lower-casing.
pub open spec fn field_type_of(s: Seq<char>) -> Option<FieldType> {
    let l = ascii_lower(s);
    if l == "int"@ {
        Some(FieldType::Int)
    } else if l == "char"@ {
        Some(FieldType::Char)
    } else if l == "text"@ {
        Some(FieldType::Text)
    } else if l == "number"@ {
        Some(FieldType::Number)
    } else if l == "float"@ {
        Some(FieldType::Float)
    } else if l == "datetime"@ {
        Some(FieldType::Datetime)
    } else if l == "timestamp"@ {
        Some(FieldType::Timestamp)
    } else if l == "binary"@ {
        Some(FieldType::Binary)
    } else {
        None
    }
}

impl FieldType {
    pub fn from_xmldb(s: &str) -> (r: Option<FieldType>)
        ensures
            r == field_type_of(s@),
    {
        let c = chars_of(s);
        let l = ascii_lower_of(c.as_slice());
        let l = l.as_slice();
        if chars_eq_str(l, "int") {
            Some(FieldType::Int)
        } else if chars_eq_str(l, "char") {
            Some(FieldType::Char)
        } else if chars_eq_str(l, "text") {
            Some(FieldType::Text)
        } else if chars_eq_str(l, "number") {
            Some(FieldType::Number)
        } else if chars_eq_str(l, "float") {
            Some(FieldType::Float)
        } else if chars_eq_str(l, "datetime") {
            Some(FieldType::Datetime)
        } else if chars_eq_str(l, "timestamp") {
            Some(FieldType::Timestamp)
        } else if chars_eq_str(l, "binary") {
            Some(FieldType::Binary)
        } else {
            None
        }
    }
}

#[derive(Debug, Clone)]
pub struct Field {
    pub name: String,
    pub ty: FieldType,
    pub length: Option<u32>,
    pub decimals: Option<u32>,
    pub notnull: bool,
    pub sequence: bool,
    pub default: Option<String>,
}

#[derive(Debug, Clone)]
pub struct Table {
    pub name: String,
    /// Columns; looked up by lower-cased name, first match wins.
    pub fields: Vec<Field>,
    /// Source plugin path relative to the moodle root (informational only).
    pub plugin_path: String,
    /// (XML-element-name, DB-column-name) aliases declared by backup
    /// steplibs via `set_source_alias(dbcol, xmlelem)`, both lower-case.
    pub aliases: Vec<(String, String)>,
}

#[derive(Debug, Clone)]
pub struct Schema {
    /// Tables; looked up by lower-cased name, first match wins.
    pub tables: Vec<Table>,
}

/// Matches a table whose lower-cased name is `key`.
pub open spec fn table_named(key: Seq<char>) -> spec_fn(Table) -> bool {
    |t: Table| ascii_lower(t.name@) == key
}

/// Matches a field whose lower-cased name is `key`.
pub open spec fn field_named(key: Seq<char>) -> spec_fn(Field) -> bool {
    |f: Field| ascii_lower(f.name@) == key
}

/// Matches an alias whose element name is `key`.
pub open spec fn alias_named(key: Seq<char>) -> spec_fn((String, String)) -> bool {
    |a: (String, String)| a.0@ == key
}

/// Index of the table named `name` (case-insensitive).
pub open spec fn table_index(schema: Schema, name: Seq<char>) -> Option<int> {
    first_index(schema.tables@, table_named(ascii_lower(name)))
}

/// Index of the field with lower-cased name `key` in `t`.
pub open spec fn field_index(t: Table, key: Seq<char>) -> Option<int> {
    first_index(t.fields@, field_named(key))
}

/// Field for an element with lower-cased name `key` under a row of `t`:
/// the column itself, else the column an alias points at.
pub open spec fn field_or_alias(t: Table, key: Seq<char>) -> Option<int> {
    match field_index(t, key) {
        Some(i) => Some(i),
        None => match first_index(t.aliases@, alias_named(key)) {
            Some(a) => field_index(t, t.aliases@[a].1@),
            None => None,
        },
    }
}

impl Default for Schema {
    fn default() -> (s: Schema)
        ensures
            s.tables@.len() == 0,
            schema_keys_unique(tables_view(s.tables@)),
    {
        Schema { tables: Vec::new() }
    }
}

impl Schema {
    /// Get a table by name (case-insensitive).
    pub fn table(&self, name: &str) -> (r: Option<&Table>)
        ensures
            match r {
                Some(t) => exists|i: int| table_index(*self, name@) == Some(i) && *t == self.tables@[i],
                None => table_index(*self, name@) is None,
            },
    {
        let c = chars_of(name);
        let key = ascii_lower_of(c.as_slice());
        match find_table(&self.tables, key.as_slice()) {
            Some(i) => Some(&self.tables[i]),
            None => None,
        }
    }
}

/// First table whose lower-cased name is `key`.
pub fn find_table(tables: &Vec<Table>, key: &[char]) -> (r: Option<usize>)
    ensures
        match r {
            Some(i) => first_index(tables@, table_named(key@)) == Some(i as int) && i < tables.len(),
            None => first_index(tables@, table_named(key@)) is None,
        },
{
    let mut i: usize = 0;
    while i < tables.len()
        invariant
            i <= tables.len(),
            forall|j: int| 0 <= j < i ==> !table_named(key@)(#[trigger] tables@[j]),
        decreases tables.len() - i,
    {
        let n = chars_of(tables[i].name.as_str());
        let l = ascii_lower_of(n.as_slice());
        if chars_eq(l.as_slice(), key) {
            proof {
                lemma_first_index(tables@, table_named(key@), i as int);
            }
            return Some(i);
        }
        i += 1;
    }
    proof {
        lemma_first_index(tables@, table_named(key@), i as int);
    }
    None
}

/// First field whose lower-cased name is `key`.
pub fn find_field(fields: &Vec<Field>, key: &[char]) -> (r: Option<usize>)
    ensures
        match r {
            Some(i) => first_index(fields@, field_named(key@)) == Some(i as int) && i < fields.len(),
            None => first_index(fields@, field_named(key@)) is None,
        },
{
    let mut i: usize = 0;
    while i < fields.len()
        invariant
            i <= fields.len(),
            forall|j: int| 0 <= j < i ==> !field_named(key@)(#[trigger] fields@[j]),
        decreases fields.len() - i,
    {
        let n = chars_of(fields[i].name.as_str());
        let l = ascii_lower_of(n.as_slice());
        if chars_eq(l.as_slice(), key) {
            proof {
                lemma_first_index(fields@, field_named(key@), i as int);
            }
            return Some(i);
        }
        i += 1;
    }
    proof {
        lemma_first_index(fields@, field_named(key@), i as int);
    }
    None
}

/// First alias whose element name is `key`.
pub fn find_alias(aliases: &Vec<(String, String)>, key: &[char]) -> (r: Option<usize>)
    ensures
        match r {
            Some(i) => first_index(aliases@, alias_named(key@)) == Some(i as int) && i < aliases.len(),
            None => first_index(aliases@, alias_named(key@)) is None,
        },
{
    let mut i: usize = 0;
    while i < aliases.len()
        invariant
            i <= aliases.len(),
            forall|j: int| 0 <= j < i ==> !alias_named(key@)(#[trigger] aliases@[j]),
        decreases aliases.len() - i,
    {
        let n = chars_of(aliases[i].0.as_str());
        if chars_eq(n.as_slice(), key) {
            proof {
                lemma_first_index(aliases@, alias_named(key@), i as int);
            }
            return Some(i);
        }
        i += 1;
    }
    proof {
        lemma_first_index(aliases@, alias_named(key@), i as int);
    }
    None
}

} // verus!

verus! {

/// Lower-cased table and field names of a schema, computed once so that
/// lookups during a walk compare prepared keys.
pub struct SchemaKeys {
    pub tables: Vec<Vec<char>>,
    pub fields: Vec<Vec<Vec<char>>>,
}

impl SchemaKeys {
    /// The keys are the lower-cased names of `schema`'s tables and fields.
    pub open spec fn keys_of(&self, schema: Schema) -> bool {
        &&& self.tables@.len() == schema.tables@.len()
        &&& self.fields@.len() == schema.tables@.len()
        &&& forall|i: int|
            0 <= i < self.tables@.len() ==> #[trigger] self.tables@[i]@ == ascii_lower(
                schema.tables@[i].name@,
            )
        &&& forall|i: int|
            0 <= i < self.fields@.len() ==> #[trigger] self.fields@[i]@.len()
                == schema.tables@[i].fields@.len()
        &&& forall|i: int, j: int|
            0 <= i < self.fields@.len() && 0 <= j < self.fields@[i]@.len()
                ==> #[trigger] self.fields@[i]@[j]@ == ascii_lower(
                schema.tables@[i].fields@[j].name@,
            )
    }

    pub fn of(schema: &Schema) -> (k: SchemaKeys)
        ensures
            k.keys_of(*schema),
    {
        let mut tables: Vec<Vec<char>> = Vec::new();
        let mut fields: Vec<Vec<Vec<char>>> = Vec::new();
        let mut i: usize = 0;
        while i < schema.tables.len()
            invariant
                i <= schema.tables@.len(),
                tables@.len() == i,
                fields@.len() == i,
                forall|a: int|
                    0 <= a < i ==> #[trigger] tables@[a]@ == ascii_lower(schema.tables@[a].name@),
                forall|a: int| 0 <= a < i ==> #[trigger] fields@[a]@.len() == schema.tables@[a].fields@.len(),
                forall|a: int, b: int|
                    0 <= a < i && 0 <= b < fields@[a]@.len() ==> #[trigger] fields@[a]@[b]@
                        == ascii_lower(schema.tables@[a].fields@[b].name@),
            decreases schema.tables.len() - i,
        {
            let t = &schema.tables[i];
            let n = chars_of(t.name.as_str());
            tables.push(ascii_lower_of(n.as_slice()));
            let mut fk: Vec<Vec<char>> = Vec::new();
            let mut j: usize = 0;
            while j < t.fields.len()
                invariant
                    j <= t.fields@.len(),
                    fk@.len() == j,
                    forall|b: int| 0 <= b < j ==> #[trigger] fk@[b]@ == ascii_lower(t.fields@[b].name@),
                decreases t.fields.len() - j,
            {
                let f = chars_of(t.fields[j].name.as_str());
                fk.push(ascii_lower_of(f.as_slice()));
                j += 1;
            }
            fields.push(fk);
            i += 1;
        }
        SchemaKeys { tables, fields }
    }

    /// Index of the table whose lower-cased name is `key`.
    pub fn table(&self, Ghost(schema): Ghost<Schema>, key: &[char]) -> (r: Option<usize>)
        requires
            self.keys_of(schema),
        ensures
            match r {
                Some(i) => first_index(schema.tables@, table_named(key@)) == Some(i as int) && i
                    < schema.tables@.len(),
                None => first_index(schema.tables@, table_named(key@)) is None,
            },
    {
        let mut i: usize = 0;
        while i < self.tables.len()
            invariant
                self.keys_of(schema),
                i <= self.tables@.len(),
                forall|j: int| 0 <= j < i ==> !table_named(key@)(#[trigger] schema.tables@[j]),
            decreases self.tables.len() - i,
        {
            if chars_eq(self.tables[i].as_slice(), key) {
                proof {
                    lemma_first_index(schema.tables@, table_named(key@), i as int);
                }
                return Some(i);
            }
            i += 1;
        }
        proof {
            lemma_first_index(schema.tables@, table_named(key@), i as int);
        }
        None
    }

    /// Index of the field of table `t` whose lower-cased name is `key`.
    pub fn field(&self, Ghost(schema): Ghost<Schema>, t: usize, key: &[char]) -> (r: Option<usize>)
        requires
            self.keys_of(schema),
            t < schema.tables@.len(),
        ensures
            match r {
                Some(i) => first_index(schema.tables@[t as int].fields@, field_named(key@)) == Some(
                    i as int,
                ) && i < schema.tables@[t as int].fields@.len(),
                None => first_index(schema.tables@[t as int].fields@, field_named(key@)) is None,
            },
    {
        let ghost fs = schema.tables@[t as int].fields@;
        let keys = &self.fields[t];
        let mut i: usize = 0;
        while i < keys.len()
            invariant
                self.keys_of(schema),
                t < schema.tables@.len(),
                fs == schema.tables@[t as int].fields@,
                keys@ == self.fields@[t as int]@,
                i <= keys@.len(),
                keys@.len() == fs.len(),
                forall|j: int| 0 <= j < i ==> !field_named(key@)(#[trigger] fs[j]),
            decreases keys.len() - i,
        {
            assert(keys@[i as int]@ == ascii_lower(fs[i as int].name@));
            if chars_eq(keys[i].as_slice(), key) {
                proof {
                    lemma_first_index(fs, field_named(key@), i as int);
                }
                return Some(i);
            }
            i += 1;
        }
        proof {
            lemma_first_index(fs, field_named(key@), i as int);
        }
        None
    }

    /// The field an element with lower-cased name `key` under a row of
    /// table `t` stands for: the column itself, else the column its alias
    /// names.
    pub fn field_or_alias(&self, schema: &Schema, t: usize, key: &[char]) -> (r: Option<usize>)
        requires
            self.keys_of(*schema),
            t < schema.tables@.len(),
        ensures
            match r {
                Some(i) => field_or_alias(schema.tables@[t as int], key@) == Some(i as int) && i
                    < schema.tables@[t as int].fields@.len(),
                None => field_or_alias(schema.tables@[t as int], key@) is None,
            },
    {
        match self.field(Ghost(*schema), t, key) {
            Some(i) => Some(i),
            None => match find_alias(&schema.tables[t].aliases, key) {
                Some(a) => {
                    let col = chars_of(schema.tables[t].aliases[a].1.as_str());
                    self.field(Ghost(*schema), t, col.as_slice())
                },
                None => None,
            },
        }
    }
}

} // verus!

verus! {

// ---------------------------------------------------------------------------
// Plain views of the schema types

/// A column as plain values.
pub struct FieldView {
    pub name: Seq<char>,
    pub ty: FieldType,
    pub length: Option<u32>,
    pub decimals: Option<u32>,
    pub notnull: bool,
    pub sequence: bool,
    pub default: Option<Seq<char>>,
}

impl View for Field {
    type V = FieldView;

    open spec fn view(&self) -> FieldView {
        FieldView {
            name: self.name@,
            ty: self.ty,
            length: self.length,
            decimals: self.decimals,
            notnull: self.notnull,
            sequence: self.sequence,
            default: match self.default {
                Some(d) => Some(d@),
                None => None,
            },
        }
    }
}

/// A table as plain values.
pub struct TableView {
    pub name: Seq<char>,
    pub fields: Seq<FieldView>,
    pub plugin_path: Seq<char>,
    pub aliases: Seq<(Seq<char>, Seq<char>)>,
}

pub open spec fn fields_view(v: Seq<Field>) -> Seq<FieldView> {
    v.map_values(|f: Field| f@)
}

impl View for Table {
    type V = TableView;

    open spec fn view(&self) -> TableView {
        TableView {
            name: self.name@,
            fields: fields_view(self.fields@),
            plugin_path: self.plugin_path@,
            aliases: self.aliases@.map_values(|a: (String, String)| (a.0@, a.1@)),
        }
    }
}

pub open spec fn tables_view(v: Seq<Table>) -> Seq<TableView> {
    v.map_values(|t: Table| t@)
}

// ---------------------------------------------------------------------------
// install.xml

/// The value of the first attribute whose name equals `key` ignoring ASCII
/// case.
pub open spec fn attr_value(attrs: Seq<XmlAttr>, key: Seq<char>) -> Option<Seq<char>> {
    match first_index(attrs, |a: XmlAttr| ascii_lower(a.key@) == ascii_lower(key)) {
        Some(i) => Some(attrs[i].value@),
        None => None,
    }
}

pub(crate) fn read_attr(attrs: &Vec<XmlAttr>, key: &str) -> (r: Option<Vec<char>>)
    ensures
        match r {
            Some(v) => attr_value(attrs@, key@) == Some(v@),
            None => attr_value(attrs@, key@) is None,
        },
{
    let k = chars_of(key);
    let kl = ascii_lower_of(k.as_slice());
    let mut i: usize = 0;
    while i < attrs.len()
        invariant
            i <= attrs@.len(),
            kl@ == ascii_lower(key@),
            forall|j: int| 0 <= j < i ==> !(|a: XmlAttr| ascii_lower(a.key@) == ascii_lower(key@))(#[trigger] attrs@[j]),
        decreases attrs@.len() - i,
    {
        let al = ascii_lower_of(attrs[i].key.as_slice());
        if chars_eq(al.as_slice(), kl.as_slice()) {
            proof {
                lemma_first_index(attrs@, |a: XmlAttr| ascii_lower(a.key@) == ascii_lower(key@), i as int);
            }
            return Some(crate::text::copy_chars(attrs[i].value.as_slice()));
        }
        i += 1;
    }
    proof {
        lemma_first_index(attrs@, |a: XmlAttr| ascii_lower(a.key@) == ascii_lower(key@), i as int);
    }
    None
}

/// A boolean XMLDB attribute: "true" or "1" in any ASCII case; absent is
/// false.
pub open spec fn flag_of(v: Option<Seq<char>>) -> bool {
    match v {
        Some(x) => ascii_lower(x) == "true"@ || ascii_lower(x) == "1"@,
        None => false,
    }
}

fn flag_exec(v: Option<Vec<char>>) -> (r: bool)
    ensures
        r == flag_of(match v {
            Some(x) => Some(x@),
            None => None,
        }),
{
    match v {
        Some(x) => {
            let l = ascii_lower_of(x.as_slice());
            chars_eq_str(l.as_slice(), "true") || chars_eq_str(l.as_slice(), "1")
        },
        None => false,
    }
}

pub open spec fn number_attr(v: Option<Seq<char>>) -> Option<u32> {
    match v {
        Some(x) => u32_text(x),
        None => None,
    }
}

fn number_exec(v: Option<Vec<char>>) -> (r: Option<u32>)
    ensures
        r == number_attr(match v {
            Some(x) => Some(x@),
            None => None,
        }),
{
    match v {
        Some(x) => parse_u32(x.as_slice()),
        None => None,
    }
}

/// The column a `<FIELD .../>` element declares: it needs a NAME and a
/// known TYPE. LOBs (TEXT/BINARY) never carry a length, decimals or
/// default, as in Moodle's `xmldb_field::set_attributes()`.
pub open spec fn field_of_attrs(attrs: Seq<XmlAttr>) -> Option<FieldView> {
    match (attr_value(attrs, "NAME"@), attr_value(attrs, "TYPE"@)) {
        (Some(name), Some(ty_str)) => match field_type_of(ty_str) {
            Some(ty) => {
                let lob = ty == FieldType::Text || ty == FieldType::Binary;
                Some(
                    FieldView {
                        name: name,
                        ty: ty,
                        length: if lob { None } else { number_attr(attr_value(attrs, "LENGTH"@)) },
                        decimals: if lob { None } else { number_attr(attr_value(attrs, "DECIMALS"@)) },
                        notnull: flag_of(attr_value(attrs, "NOTNULL"@)),
                        sequence: flag_of(attr_value(attrs, "SEQUENCE"@)),
                        default: if lob { None } else { attr_value(attrs, "DEFAULT"@) },
                    },
                )
            },
            None => None,
        },
        _ => None,
    }
}

fn opt_string(v: Option<Vec<char>>) -> (r: Option<String>)
    ensures
        match (r, v) {
            (Some(a), Some(b)) => a@ == b@,
            (None, None) => true,
            _ => false,
        },
{
    match v {
        Some(x) => Some(string_of(x.as_slice())),
        None => None,
    }
}

pub fn parse_field(attrs: &Vec<XmlAttr>) -> (r: Option<Field>)
    ensures
        match r {
            Some(f) => field_of_attrs(attrs@) == Some(f@),
            None => field_of_attrs(attrs@) is None,
        },
{
    let name = match read_attr(attrs, "NAME") {
        Some(n) => n,
        None => return None,
    };
    let ty_str = match read_attr(attrs, "TYPE") {
        Some(t) => t,
        None => return None,
    };
    let ty_string = string_of(ty_str.as_slice());
    let ty = match FieldType::from_xmldb(ty_string.as_str()) {
        Some(t) => t,
        None => return None,
    };
    let length = number_exec(read_attr(attrs, "LENGTH"));
    let decimals = number_exec(read_attr(attrs, "DECIMALS"));
    let notnull = flag_exec(read_attr(attrs, "NOTNULL"));
    let sequence = flag_exec(read_attr(attrs, "SEQUENCE"));
    let default = opt_string(read_attr(attrs, "DEFAULT"));
    let lob = match ty {
        FieldType::Text | FieldType::Binary => true,
        _ => false,
    };
    let (length, decimals, default) = if lob {
        (None, None, None)
    } else {
        (length, decimals, default)
    };
    Some(Field { name: string_of(name.as_slice()), ty, length, decimals, notnull, sequence, default })
}

/// A column whose lower-cased name is that of `name`.
pub open spec fn same_key(name: Seq<char>) -> spec_fn(FieldView) -> bool {
    |g: FieldView| ascii_lower(g.name) == ascii_lower(name)
}

/// HashMap-style insert of a column keyed by its lower-cased name: a column
/// of the same key is replaced in place, otherwise the column is appended.
pub open spec fn insert_field(fields: Seq<FieldView>, f: FieldView) -> Seq<FieldView> {
    match first_index(fields, same_key(f.name)) {
        Some(i) => fields.update(i, f),
        None => fields.push(f),
    }
}

/// No two columns share a lower-cased name.
pub open spec fn fields_unique(fs: Seq<FieldView>) -> bool {
    forall|a: int, b: int| 0 <= a < b < fs.len() ==> ascii_lower(#[trigger] fs[a].name) != ascii_lower(
        #[trigger] fs[b].name,
    )
}

/// No two tables share a lower-cased name.
pub open spec fn tables_unique(ts: Seq<TableView>) -> bool {
    forall|a: int, b: int| 0 <= a < b < ts.len() ==> ascii_lower(#[trigger] ts[a].name) != ascii_lower(
        #[trigger] ts[b].name,
    )
}

/// Every table's columns are keyed uniquely.
pub open spec fn all_fields_unique(ts: Seq<TableView>) -> bool {
    forall|i: int| 0 <= i < ts.len() ==> fields_unique(#[trigger] ts[i].fields)
}

/// Tables and, within each table, columns are keyed uniquely by their
/// lower-cased names.
pub open spec fn schema_keys_unique(ts: Seq<TableView>) -> bool {
    tables_unique(ts) && all_fields_unique(ts)
}

proof fn lemma_insert_field_unique(fs: Seq<FieldView>, f: FieldView)
    requires
        fields_unique(fs),
    ensures
        fields_unique(insert_field(fs, f)),
{
    lemma_first_index_props(fs, same_key(f.name));
    let r = insert_field(fs, f);
    match first_index(fs, same_key(f.name)) {
        Some(i) => {
            assert forall|a: int, b: int| 0 <= a < b < r.len() implies ascii_lower(#[trigger] r[a].name)
                != ascii_lower(#[trigger] r[b].name) by {
                if a == i {
                    assert(same_key(f.name)(fs[i]));
                    assert(ascii_lower(fs[a].name) != ascii_lower(fs[b].name));
                } else if b == i {
                    assert(same_key(f.name)(fs[i]));
                    assert(ascii_lower(fs[a].name) != ascii_lower(fs[b].name));
                } else {
                    assert(ascii_lower(fs[a].name) != ascii_lower(fs[b].name));
                }
            }
        },
        None => {
            assert forall|a: int, b: int| 0 <= a < b < r.len() implies ascii_lower(#[trigger] r[a].name)
                != ascii_lower(#[trigger] r[b].name) by {
                if b == fs.len() {
                    assert(!same_key(f.name)(fs[a]));
                } else {
                    assert(ascii_lower(fs[a].name) != ascii_lower(fs[b].name));
                }
            }
        },
    }
}

spec fn install_keys_ok(s: InstallScan) -> bool {
    &&& all_fields_unique(s.tables)
    &&& s.current matches Some(t) ==> fields_unique(t.fields)
}

/// The columns of every table an install.xml yields are keyed uniquely by
/// their lower-cased names: a later `<FIELD>` of the same name replaces the
/// earlier one.
pub proof fn law_install_fields_unique(src: Seq<u8>)
    ensures
        install_tables(src) matches Ok(ts) ==> all_fields_unique(ts),
{
    let step = install_fn();
    let inv = |s: InstallScan| install_keys_ok(s);
    let k = (src.len() + 1) as nat;
    assert forall|j: nat, s: InstallScan|
        #![trigger inv(step(s, xml_event(src, true, j)))]
        j < k && inv(s) && !is_terminal(xml_event(src, true, j)) implies inv(step(s, xml_event(src, true, j))) by {
        let e = xml_event(src, true, j);
        match e {
            XmlEvent::End { name } => {
                if name@ == "TABLE"@ {
                    match s.current {
                        Some(t) => {
                            if t.name.len() > 0 {
                                let n = s.tables.push(t);
                                assert forall|i: int| 0 <= i < n.len() implies fields_unique(#[trigger] n[i].fields) by {
                                    if i < s.tables.len() {
                                        assert(n[i] == s.tables[i]);
                                    }
                                }
                            }
                        },
                        None => {},
                    }
                }
            },
            XmlEvent::Empty { name, attrs } => {
                if s.in_fields && name@ == "FIELD"@ {
                    match (field_of_attrs(attrs@), s.current) {
                        (Some(f), Some(t)) => {
                            lemma_insert_field_unique(t.fields, f);
                        },
                        _ => {},
                    }
                }
            },
            _ => {},
        }
    }
    crate::xml::lemma_scan_inv(src, true, k, install_init(), step, inv);
}

/// Reading state of `parse_install_xml`.
pub ghost struct InstallScan {
    pub tables: Seq<TableView>,
    pub current: Option<TableView>,
    pub in_fields: bool,
}

pub open spec fn install_init() -> InstallScan {
    InstallScan { tables: Seq::empty(), current: None, in_fields: false }
}

/// `<TABLE NAME=..>` opens a table, `</TABLE>` keeps it when it has a name;
/// `<FIELD .../>` inside `<FIELDS>` adds a column to the open table.
pub open spec fn install_step(s: InstallScan, e: XmlEvent) -> InstallScan {
    match e {
        XmlEvent::Start { name, attrs } => if name@ == "TABLE"@ {
            InstallScan {
                current: Some(
                    TableView {
                        name: match attr_value(attrs@, "NAME"@) {
                            Some(n) => n,
                            None => Seq::empty(),
                        },
                        fields: Seq::empty(),
                        plugin_path: Seq::empty(),
                        aliases: Seq::empty(),
                    },
                ),
                ..s
            }
        } else if name@ == "FIELDS"@ {
            InstallScan { in_fields: true, ..s }
        } else {
            s
        },
        XmlEvent::End { name } => if name@ == "TABLE"@ {
            InstallScan {
                tables: match s.current {
                    Some(t) => if t.name.len() > 0 { s.tables.push(t) } else { s.tables },
                    None => s.tables,
                },
                current: None,
                ..s
            }
        } else if name@ == "FIELDS"@ {
            InstallScan { in_fields: false, ..s }
        } else {
            s
        },
        XmlEvent::Empty { name, attrs } => if s.in_fields && name@ == "FIELD"@ {
            match (field_of_attrs(attrs@), s.current) {
                (Some(f), Some(t)) => InstallScan {
                    current: Some(TableView { fields: insert_field(t.fields, f), ..t }),
                    ..s
                },
                _ => s,
            }
        } else {
            s
        },
        _ => s,
    }
}

pub open spec fn install_fn() -> spec_fn(InstallScan, XmlEvent) -> InstallScan {
    |s: InstallScan, e: XmlEvent| install_step(s, e)
}

/// The tables of an install.xml, or the parse error's message.
pub open spec fn install_tables(src: Seq<u8>) -> Result<Seq<TableView>, Seq<char>> {
    let r = scan_all(src, true, install_init(), install_fn());
    match r.1 {
        Some(XmlEvent::Error { position, message }) => Err(
            "xml error at position "@ + decimal(position as nat) + ": "@ + message@,
        ),
        _ => Ok(r.0.tables),
    }
}

impl Table {
    /// Add a column keyed by its lower-cased name (see `insert_field`).
    pub fn insert_field(&mut self, f: Field)
        ensures
            final(self)@ == (TableView { fields: insert_field(old(self)@.fields, f@), ..old(self)@ }),
    {
        let ghost fval = f;
        let ghost fv = f@;
        let ghost before = self.fields@;
        let n = chars_of(f.name.as_str());
        let key = ascii_lower_of(n.as_slice());
        let mut i: usize = 0;
        while i < self.fields.len()
            invariant
                i <= self.fields@.len(),
                self.fields@ == before,
                *self == *old(self),
                fval == f,
                fv == f@,
                key@ == ascii_lower(fv.name),
                forall|j: int| 0 <= j < i ==> !same_key(fv.name)(
                    #[trigger] fields_view(before)[j],
                ),
            decreases self.fields@.len() - i,
        {
            let gn = chars_of(self.fields[i].name.as_str());
            let gl = ascii_lower_of(gn.as_slice());
            assert(fields_view(before)[i as int] == before[i as int]@);
            if chars_eq(gl.as_slice(), key.as_slice()) {
                proof {
                    lemma_first_index(fields_view(before), same_key(fv.name), i as int);
                }
                self.fields.set(i, f);
                assert(self.fields@ == before.update(i as int, fval));
                assert(self.fields@[i as int]@ == fv);
                assert(fields_view(self.fields@) =~= fields_view(before).update(i as int, fv));
                return;
            }
            i += 1;
        }
        proof {
            lemma_first_index(fields_view(before), same_key(fv.name), i as int);
        }
        self.fields.push(f);
        assert(fields_view(self.fields@) =~= fields_view(before).push(fv));
    }
}

/// Parse a Moodle install.xml byte buffer and return its tables, or the
/// first parse error as "xml error at position <pos>: <message>".
///
/// Only `<TABLE NAME=...><FIELDS><FIELD .../></FIELDS></TABLE>` is read;
/// keys, indexes and statistics do not affect backup XML validation.
pub fn parse_install_xml(bytes: &[u8]) -> (r: Result<Vec<Table>, String>)
    ensures
        match (r, install_tables(bytes@)) {
            (Ok(ts), Ok(v)) => tables_view(ts@) == v,
            (Err(e), Err(m)) => e@ == m,
            _ => false,
        },
        r matches Ok(ts) ==> all_fields_unique(tables_view(ts@)),
{
    proof {
        law_install_fields_unique(bytes@);
    }
    let ghost step = install_fn();
    let mut tables: Vec<Table> = Vec::new();
    let mut current: Option<Table> = None;
    let mut in_fields = false;
    let mut cur = XmlCursor::open(bytes, true);
    assert(tables_view(tables@) =~= install_init().tables);
    loop
        invariant_except_break
            cur.src() == bytes@,
            cur.trim(),
            cur.count() <= bytes@.len(),
            step == install_fn(),
            scan(bytes@, true, cur.count(), install_init(), step).1 is None,
            tables_view(tables@) == scan(bytes@, true, cur.count(), install_init(), step).0.tables,
            in_fields == scan(bytes@, true, cur.count(), install_init(), step).0.in_fields,
            match current {
                Some(t) => scan(bytes@, true, cur.count(), install_init(), step).0.current == Some(t@),
                None => scan(bytes@, true, cur.count(), install_init(), step).0.current is None,
            },
        ensures
            scan_all(bytes@, true, install_init(), step).1 == Some(XmlEvent::Eof),
            tables_view(tables@) == scan_all(bytes@, true, install_init(), step).0.tables,
        decreases bytes@.len() + 1 - cur.count(),
    {
        let ghost k = cur.count();
        let ev = cur.next();
        match ev {
            XmlEvent::Start { name, attrs } => {
                if chars_eq_str(name.as_slice(), "TABLE") {
                    let tname = match read_attr(&attrs, "NAME") {
                        Some(n) => string_of(n.as_slice()),
                        None => String::new(),
                    };
                    let t = Table { name: tname, fields: Vec::new(), plugin_path: String::new(), aliases: Vec::new() };
                    assert(t@.fields =~= Seq::<FieldView>::empty());
                    assert(t@.aliases =~= Seq::<(Seq<char>, Seq<char>)>::empty());
                    current = Some(t);
                } else if chars_eq_str(name.as_slice(), "FIELDS") {
                    in_fields = true;
                }
            },
            XmlEvent::End { name } => {
                if chars_eq_str(name.as_slice(), "TABLE") {
                    if let Some(t) = current.take() {
                        if !t.name.as_str().is_empty() {
                            let ghost before = tables@;
                            tables.push(t);
                            assert(tables_view(tables@) =~= tables_view(before).push(t@));
                        }
                    }
                } else if chars_eq_str(name.as_slice(), "FIELDS") {
                    in_fields = false;
                }
            },
            XmlEvent::Empty { name, attrs } => {
                if in_fields && chars_eq_str(name.as_slice(), "FIELD") {
                    if let Some(field) = parse_field(&attrs) {
                        if let Some(t) = &mut current {
                            t.insert_field(field);
                        }
                    }
                }
            },
            XmlEvent::Eof => {
                proof {
                    lemma_scan_finish(bytes@, true, k, install_init(), step);
                }
                break;
            },
            XmlEvent::Error { position, message } => {
                proof {
                    lemma_scan_finish(bytes@, true, k, install_init(), step);
                }
                let mut m = chars_of("xml error at position ");
                push_decimal(&mut m, position);
                crate::text::push_str(&mut m, ": ");
                push_chars(&mut m, message.as_slice());
                return Err(string_of(m.as_slice()));
            },
            _ => {},
        }
    }
    Ok(tables)
}

/// What merging one table into a schema did.
#[derive(Debug)]
pub enum LoadOutcome {
    Inserted,
    /// A table of the same (case-insensitive) name was already present; the
    /// first definition is kept.
    Conflict { existing_plugin: String },
}

/// `None` for an insert, the existing table's plugin for a conflict.
pub open spec fn outcome_view(o: LoadOutcome) -> Option<Seq<char>> {
    match o {
        LoadOutcome::Inserted => None,
        LoadOutcome::Conflict { existing_plugin } => Some(existing_plugin@),
    }
}

/// A table whose lower-cased name is that of `name`.
pub open spec fn same_table(name: Seq<char>) -> spec_fn(TableView) -> bool {
    |u: TableView| ascii_lower(u.name) == ascii_lower(name)
}

/// Merging `new` into `have`, tables keyed by lower-cased name: a table
/// whose key is already present is dropped (conflict, naming the present
/// table's plugin), otherwise it is appended with `plugin` as its plugin
/// path. Returns the merged tables and one outcome per table of `new`.
pub open spec fn merge_spec(
    have: Seq<TableView>,
    new: Seq<TableView>,
    plugin: Seq<char>,
) -> (Seq<TableView>, Seq<Option<Seq<char>>>)
    decreases new.len(),
{
    if new.len() == 0 {
        (have, Seq::empty())
    } else {
        let prev = merge_spec(have, new.drop_last(), plugin);
        let t = new.last();
        match first_index(prev.0, same_table(t.name)) {
            Some(i) => (prev.0, prev.1.push(Some(prev.0[i].plugin_path))),
            None => (prev.0.push(TableView { plugin_path: plugin, ..t }), prev.1.push(None)),
        }
    }
}

/// Merging keeps tables and columns keyed uniquely: when the schema's keys
/// are unique and each merged table's columns are, the merged schema's keys
/// are unique (a table whose name is already present is not added).
pub proof fn law_merge_keeps_keys_unique(have: Seq<TableView>, new: Seq<TableView>, plugin: Seq<char>)
    requires
        schema_keys_unique(have),
        all_fields_unique(new),
    ensures
        schema_keys_unique(merge_spec(have, new, plugin).0),
    decreases new.len(),
{
    if new.len() > 0 {
        assert(all_fields_unique(new.drop_last())) by {
            assert forall|i: int| 0 <= i < new.drop_last().len() implies fields_unique(#[trigger] new.drop_last()[i].fields) by {
                assert(new.drop_last()[i] == new[i]);
            }
        }
        law_merge_keeps_keys_unique(have, new.drop_last(), plugin);
        let prev = merge_spec(have, new.drop_last(), plugin);
        let t = new.last();
        lemma_first_index_props(prev.0, same_table(t.name));
        match first_index(prev.0, same_table(t.name)) {
            Some(i) => {},
            None => {
                let u = TableView { plugin_path: plugin, ..t };
                let r = prev.0.push(u);
                assert(fields_unique(t.fields)) by {
                    assert(new[new.len() - 1] == t);
                }
                assert forall|a: int, b: int| 0 <= a < b < r.len() implies ascii_lower(#[trigger] r[a].name)
                    != ascii_lower(#[trigger] r[b].name) by {
                    if b == prev.0.len() {
                        assert(!same_table(t.name)(prev.0[a]));
                    } else {
                        assert(ascii_lower(prev.0[a].name) != ascii_lower(prev.0[b].name));
                    }
                }
                assert forall|i: int| 0 <= i < r.len() implies fields_unique(#[trigger] r[i].fields) by {
                    if i < prev.0.len() {
                        assert(r[i] == prev.0[i]);
                    }
                }
            },
        }
    }
}

pub open spec fn outcomes_view(v: Seq<LoadOutcome>) -> Seq<Option<Seq<char>>> {
    v.map_values(|o: LoadOutcome| outcome_view(o))
}

/// Position of the first table whose lower-cased name is that of `name`.
fn position_of_table(tables: &Vec<Table>, name: &[char]) -> (r: Option<usize>)
    ensures
        match r {
            Some(i) => first_index(tables_view(tables@), same_table(name@)) == Some(i as int) && i < tables@.len(),
            None => first_index(tables_view(tables@), same_table(name@)) is None,
        },
{
    let ghost cur = tables_view(tables@);
    let key = ascii_lower_of(name);
    let mut i: usize = 0;
    while i < tables.len()
        invariant
            i <= tables@.len(),
            cur == tables_view(tables@),
            key@ == ascii_lower(name@),
            forall|j: int| 0 <= j < i ==> !same_table(name@)(#[trigger] cur[j]),
        decreases tables@.len() - i,
    {
        let m = chars_of(tables[i].name.as_str());
        let ml = ascii_lower_of(m.as_slice());
        assert(cur[i as int] == tables@[i as int]@);
        if chars_eq(ml.as_slice(), key.as_slice()) {
            proof {
                lemma_first_index(cur, same_table(name@), i as int);
            }
            return Some(i);
        }
        i += 1;
    }
    proof {
        lemma_first_index(cur, same_table(name@), i as int);
    }
    None
}

impl Schema {
    /// Merge the tables parsed from one install.xml (of plugin `plugin_path`)
    /// into this schema; the first definition of a table name wins.
    pub fn merge_tables(&mut self, tables: Vec<Table>, plugin_path: &str) -> (outcomes: Vec<LoadOutcome>)
        ensures
            tables_view(final(self).tables@) == merge_spec(
                tables_view(old(self).tables@),
                tables_view(tables@),
                plugin_path@,
            ).0,
            outcomes_view(outcomes@) == merge_spec(
                tables_view(old(self).tables@),
                tables_view(tables@),
                plugin_path@,
            ).1,
            schema_keys_unique(tables_view(old(self).tables@)) && all_fields_unique(tables_view(tables@))
                ==> schema_keys_unique(tables_view(final(self).tables@)),
    {
        proof {
            if schema_keys_unique(tables_view(self.tables@)) && all_fields_unique(tables_view(tables@)) {
                law_merge_keeps_keys_unique(tables_view(self.tables@), tables_view(tables@), plugin_path@);
            }
        }
        let ghost have = tables_view(self.tables@);
        let ghost all = tables_view(tables@);
        let mut rest = tables;
        let total = rest.len();
        let mut outcomes: Vec<LoadOutcome> = Vec::new();
        let mut done: usize = 0;
        let pp = chars_of(plugin_path);
        assert(all.take(0) =~= Seq::<TableView>::empty());
        assert(outcomes_view(outcomes@) =~= Seq::<Option<Seq<char>>>::empty());
        while rest.len() > 0
            invariant
                done + rest@.len() == all.len(),
                all.len() == total,
                tables_view(rest@) == all.skip(done as int),
                pp@ == plugin_path@,
                tables_view(self.tables@) == merge_spec(have, all.take(done as int), plugin_path@).0,
                outcomes_view(outcomes@) == merge_spec(have, all.take(done as int), plugin_path@).1,
            decreases rest@.len(),
        {
            let ghost before_rest = rest@;
            let mut t = rest.remove(0);
            assert(t@ == all[done as int]) by {
                assert(tables_view(before_rest)[0] == before_rest[0]@);
            }
            assert(tables_view(rest@) =~= all.skip(done as int + 1)) by {
                assert(rest@ =~= before_rest.subrange(1, before_rest.len() as int));
                assert forall|j: int| 0 <= j < rest@.len() implies tables_view(rest@)[j] == all.skip(done as int + 1)[j] by {
                    assert(tables_view(before_rest)[j + 1] == before_rest[j + 1]@);
                    assert(all.skip(done as int)[j + 1] == all[done + j + 1]);
                }
            }
            assert(all.take(done as int + 1).drop_last() =~= all.take(done as int));
            assert(all.take(done as int + 1).last() == all[done as int]);
            let ghost cur = tables_view(self.tables@);
            let n = chars_of(t.name.as_str());
            let found = position_of_table(&self.tables, n.as_slice());
            match found {
                Some(k) => {
                    let existing = self.tables[k].plugin_path.clone();
                    let ghost ob = outcomes@;
                    outcomes.push(LoadOutcome::Conflict { existing_plugin: existing });
                    assert(outcomes_view(outcomes@) =~= outcomes_view(ob).push(Some(cur[k as int].plugin_path)));
                },
                None => {
                    t.plugin_path = string_of(pp.as_slice());
                    let ghost tb = self.tables@;
                    self.tables.push(t);
                    assert(tables_view(self.tables@) =~= tables_view(tb).push(
                        TableView { plugin_path: plugin_path@, ..all[done as int] },
                    ));
                    let ghost ob = outcomes@;
                    outcomes.push(LoadOutcome::Inserted);
                    assert(outcomes_view(outcomes@) =~= outcomes_view(ob).push(None));
                },
            }
            done += 1;
        }
        assert(all.take(done as int) =~= all);
        outcomes
    }

    /// Parse the bytes of the install.xml file named `install_xml`, whose
    /// plugin directory (relative to the Moodle root) is `plugin_path`, and
    /// merge its tables into this schema. A parse failure leaves the schema
    /// as it was and is reported as "parse <install_xml>: <error>".
    pub fn merge_install_xml(&mut self, bytes: &[u8], install_xml: &str, plugin_path: &str) -> (r: Result<Vec<LoadOutcome>, String>)
        ensures
            match install_tables(bytes@) {
                Ok(v) => {
                    &&& r is Ok
                    &&& tables_view(final(self).tables@) == merge_spec(tables_view(old(self).tables@), v, plugin_path@).0
                    &&& outcomes_view(r->Ok_0@) == merge_spec(tables_view(old(self).tables@), v, plugin_path@).1
                },
                Err(m) => {
                    &&& r is Err
                    &&& r->Err_0@ == "parse "@ + install_xml@ + ": "@ + m
                    &&& *final(self) == *old(self)
                },
            },
            schema_keys_unique(tables_view(old(self).tables@)) ==> schema_keys_unique(tables_view(final(self).tables@)),
    {
        match parse_install_xml(bytes) {
            Ok(tables) => Ok(self.merge_tables(tables, plugin_path)),
            Err(e) => {
                let mut msg: Vec<char> = Vec::new();
                push_str(&mut msg, "parse ");
                push_str(&mut msg, install_xml);
                push_str(&mut msg, ": ");
                let ec = chars_of(e.as_str());
                push_chars(&mut msg, ec.as_slice());
                Err(string_of(msg.as_slice()))
            },
        }
    }
}

/// The first definition of a table wins: merging never changes or drops a
/// table already in the schema, and yields one outcome per merged table.
pub proof fn law_merge_keeps_existing(have: Seq<TableView>, new: Seq<TableView>, plugin: Seq<char>)
    ensures
        merge_spec(have, new, plugin).0.len() >= have.len(),
        merge_spec(have, new, plugin).0.take(have.len() as int) == have,
        merge_spec(have, new, plugin).1.len() == new.len(),
    decreases new.len(),
{
    if new.len() > 0 {
        law_merge_keeps_existing(have, new.drop_last(), plugin);
        let prev = merge_spec(have, new.drop_last(), plugin);
        let t = new.last();
        match first_index(prev.0, same_table(t.name)) {
            Some(i) => {},
            None => {
                assert(prev.0.push(TableView { plugin_path: plugin, ..t }).take(have.len() as int) =~= prev.0.take(have.len() as int));
            },
        }
    }
}

} // verus!
