//! The syntax tree of a HOCON document, and its mathematical model.
use vstd::prelude::*;

verus! {

// ---------------------------------------------------------------------------
// The model: what a parsed document is, as mathematical values.
// ---------------------------------------------------------------------------

pub struct SDocument {
    pub root: SRoot,
}

pub struct SObject {
    pub entries: Seq<SEntry>,
    pub prefer_multiline: bool,
}

pub struct SArray {
    pub items: Seq<SArrayItem>,
    pub prefer_multiline: bool,
}

pub enum SRoot {
    Object { object: SObject, braced: bool },
    Array(SArray),
}

pub enum SEntry {
    Field(SField),
    Include(SIncludeStmt),
    Comment(SComment),
}

pub enum SArrayItem {
    Value { leading_blank_line: bool, value: SValue, trailing_comment: Option<Seq<char>> },
    Comment(SComment),
}

pub struct SComment {
    pub text: Seq<char>,
    pub leading_blank_line: bool,
}

pub struct SIncludeStmt {
    pub leading_blank_line: bool,
    pub directive: SInclude,
    pub trailing_comment: Option<Seq<char>>,
}

pub struct SField {
    pub leading_blank_line: bool,
    pub path: Seq<Seq<char>>,
    pub op: FieldOp,
    pub value: SValue,
    pub trailing_comment: Option<Seq<char>>,
}

pub enum SInclude {
    Bare(Seq<char>),
    File(Seq<char>),
    Url(Seq<char>),
    Classpath(Seq<char>),
    Required(Box<SInclude>),
}

pub enum SValue {
    Single(SPart),
    Concat(Seq<SConcatItem>),
}

pub struct SConcatItem {
    pub separator: Seq<char>,
    pub part: SPart,
}

pub enum SPart {
    Object(SObject),
    Array(SArray),
    Atom(SAtom),
}

pub enum SAtom {
    String(Seq<char>),
    Number(Seq<char>),
    Boolean(Seq<char>),
    Null,
    Unquoted(Seq<char>),
    Substitution(SSubstitution),
}

pub struct SSubstitution {
    pub optional: bool,
    pub path: Seq<Seq<char>>,
    pub list_hint: bool,
}

// ---------------------------------------------------------------------------
// The executable tree.
// ---------------------------------------------------------------------------

pub struct Document {
    pub root: Root,
}

pub struct ObjectValue {
    pub entries: Vec<Entry>,
    pub prefer_multiline: bool,
}

pub struct ArrayValue {
    pub items: Vec<ArrayItem>,
    pub prefer_multiline: bool,
}

pub enum Root {
    Object { object: ObjectValue, braced: bool },
    Array(ArrayValue),
}

pub enum Entry {
    Field(Field),
    Include(IncludeStmt),
    Comment(StandaloneComment),
}

pub enum ArrayItem {
    Value { leading_blank_line: bool, value: Value, trailing_comment: Option<TrailingComment> },
    Comment(StandaloneComment),
}

pub struct TrailingComment {
    pub text: Vec<char>,
}

pub struct StandaloneComment {
    pub text: Vec<char>,
    pub leading_blank_line: bool,
}

pub struct IncludeStmt {
    pub leading_blank_line: bool,
    pub directive: Include,
    pub trailing_comment: Option<TrailingComment>,
}

pub struct Field {
    pub leading_blank_line: bool,
    pub path: Vec<Vec<char>>,
    pub op: FieldOp,
    pub value: Value,
    pub trailing_comment: Option<TrailingComment>,
}

#[derive(Clone, Copy, PartialEq, Eq, Structural)]
pub enum FieldOp {
    Assign,
    Append,
}

pub enum Include {
    Bare(StringLiteral),
    File(StringLiteral),
    Url(StringLiteral),
    Classpath(StringLiteral),
    Required(Box<Include>),
}

pub enum Value {
    Single(ValuePart),
    Concat(Vec<ConcatItem>),
}

pub struct ConcatItem {
    pub separator: Vec<char>,
    pub part: ValuePart,
}

pub enum ValuePart {
    Object(ObjectValue),
    Array(ArrayValue),
    Atom(Atom),
}

pub enum Atom {
    String(StringLiteral),
    Number(Vec<char>),
    Boolean(Vec<char>),
    Null,
    Unquoted(Vec<char>),
    Substitution(Substitution),
}

pub struct StringLiteral {
    pub raw: Vec<char>,
}

pub struct Substitution {
    pub optional: bool,
    pub path: Vec<Vec<char>>,
    pub list_hint: bool,
}

#[derive(Clone, Copy, PartialEq, Eq, Structural)]
pub enum ConcatKind {
    Simple,
    Array,
    Object,
}

// ---------------------------------------------------------------------------
// Views.
// ---------------------------------------------------------------------------

pub open spec fn path_view(path: Vec<Vec<char>>) -> Seq<Seq<char>> {
    Seq::new(path@.len(), |i: int| path@[i]@)
}

pub open spec fn trailing_view(c: Option<TrailingComment>) -> Option<Seq<char>> {
    match c {
        Some(c) => Some(c.text@),
        None => None,
    }
}

impl StandaloneComment {
    pub open spec fn sv(self) -> SComment {
        SComment { text: self.text@, leading_blank_line: self.leading_blank_line }
    }
}

impl Include {
    pub open spec fn sv(self) -> SInclude
        decreases self,
    {
        match self {
            Include::Bare(l) => SInclude::Bare(l.raw@),
            Include::File(l) => SInclude::File(l.raw@),
            Include::Url(l) => SInclude::Url(l.raw@),
            Include::Classpath(l) => SInclude::Classpath(l.raw@),
            Include::Required(inner) => SInclude::Required(Box::new((*inner).sv())),
        }
    }
}

impl IncludeStmt {
    pub open spec fn sv(self) -> SIncludeStmt {
        SIncludeStmt {
            leading_blank_line: self.leading_blank_line,
            directive: self.directive.sv(),
            trailing_comment: trailing_view(self.trailing_comment),
        }
    }
}

impl Substitution {
    pub open spec fn sv(self) -> SSubstitution {
        SSubstitution {
            optional: self.optional,
            path: path_view(self.path),
            list_hint: self.list_hint,
        }
    }
}

impl Atom {
    pub open spec fn sv(self) -> SAtom {
        match self {
            Atom::String(l) => SAtom::String(l.raw@),
            Atom::Number(t) => SAtom::Number(t@),
            Atom::Boolean(t) => SAtom::Boolean(t@),
            Atom::Null => SAtom::Null,
            Atom::Unquoted(t) => SAtom::Unquoted(t@),
            Atom::Substitution(s) => SAtom::Substitution(s.sv()),
        }
    }
}

impl ObjectValue {
    pub open spec fn sv(self) -> SObject
        decreases self, 0int,
    {
        SObject {
            entries: Seq::new(
                self.entries@.len(),
                |i: int|
                    if 0 <= i < self.entries@.len() {
                        self.entries@[i].sv()
                    } else {
                        SEntry::Comment(SComment { text: Seq::empty(), leading_blank_line: false })
                    },
            ),
            prefer_multiline: self.prefer_multiline,
        }
    }
}

impl ArrayValue {
    pub open spec fn sv(self) -> SArray
        decreases self, 0int,
    {
        SArray {
            items: Seq::new(
                self.items@.len(),
                |i: int|
                    if 0 <= i < self.items@.len() {
                        self.items@[i].sv()
                    } else {
                        SArrayItem::Comment(SComment { text: Seq::empty(), leading_blank_line: false })
                    },
            ),
            prefer_multiline: self.prefer_multiline,
        }
    }
}

impl Entry {
    pub open spec fn sv(self) -> SEntry
        decreases self, 0int,
    {
        match self {
            Entry::Field(f) => SEntry::Field(f.sv()),
            Entry::Include(i) => SEntry::Include(i.sv()),
            Entry::Comment(c) => SEntry::Comment(c.sv()),
        }
    }
}

impl ArrayItem {
    pub open spec fn sv(self) -> SArrayItem
        decreases self, 0int,
    {
        match self {
            ArrayItem::Value { leading_blank_line, value, trailing_comment } => SArrayItem::Value {
                leading_blank_line,
                value: value.sv(),
                trailing_comment: trailing_view(trailing_comment),
            },
            ArrayItem::Comment(c) => SArrayItem::Comment(c.sv()),
        }
    }
}

impl Field {
    pub open spec fn sv(self) -> SField
        decreases self, 0int,
    {
        SField {
            leading_blank_line: self.leading_blank_line,
            path: path_view(self.path),
            op: self.op,
            value: self.value.sv(),
            trailing_comment: trailing_view(self.trailing_comment),
        }
    }
}

impl Value {
    pub open spec fn sv(self) -> SValue
        decreases self, 0int,
    {
        match self {
            Value::Single(p) => SValue::Single(p.sv()),
            Value::Concat(items) => SValue::Concat(
                Seq::new(
                    items@.len(),
                    |i: int|
                        if 0 <= i < items@.len() {
                            items@[i].sv()
                        } else {
                            SConcatItem { separator: Seq::empty(), part: SPart::Atom(SAtom::Null) }
                        },
                ),
            ),
        }
    }
}

impl ConcatItem {
    pub open spec fn sv(self) -> SConcatItem
        decreases self, 0int,
    {
        SConcatItem { separator: self.separator@, part: self.part.sv() }
    }
}

impl ValuePart {
    pub open spec fn sv(self) -> SPart
        decreases self, 0int,
    {
        match self {
            ValuePart::Object(o) => SPart::Object(o.sv()),
            ValuePart::Array(a) => SPart::Array(a.sv()),
            ValuePart::Atom(a) => SPart::Atom(a.sv()),
        }
    }
}

impl Root {
    pub open spec fn sv(self) -> SRoot {
        match self {
            Root::Object { object, braced } => SRoot::Object { object: object.sv(), braced },
            Root::Array(a) => SRoot::Array(a.sv()),
        }
    }
}

impl Document {
    pub open spec fn sv(self) -> SDocument {
        SDocument { root: self.root.sv() }
    }
}

impl View for ObjectValue {
    type V = SObject;

    open spec fn view(&self) -> SObject {
        self.sv()
    }
}

impl View for ArrayValue {
    type V = SArray;

    open spec fn view(&self) -> SArray {
        self.sv()
    }
}

impl View for Value {
    type V = SValue;

    open spec fn view(&self) -> SValue {
        self.sv()
    }
}

impl View for ValuePart {
    type V = SPart;

    open spec fn view(&self) -> SPart {
        self.sv()
    }
}

impl View for Atom {
    type V = SAtom;

    open spec fn view(&self) -> SAtom {
        self.sv()
    }
}

impl View for Field {
    type V = SField;

    open spec fn view(&self) -> SField {
        self.sv()
    }
}

impl View for IncludeStmt {
    type V = SIncludeStmt;

    open spec fn view(&self) -> SIncludeStmt {
        self.sv()
    }
}

impl View for Include {
    type V = SInclude;

    open spec fn view(&self) -> SInclude {
        self.sv()
    }
}

impl View for Substitution {
    type V = SSubstitution;

    open spec fn view(&self) -> SSubstitution {
        self.sv()
    }
}

impl View for Document {
    type V = SDocument;

    open spec fn view(&self) -> SDocument {
        self.sv()
    }
}

impl View for Root {
    type V = SRoot;

    open spec fn view(&self) -> SRoot {
        self.sv()
    }
}

impl View for ConcatItem {
    type V = SConcatItem;

    open spec fn view(&self) -> SConcatItem {
        self.sv()
    }
}

impl View for StandaloneComment {
    type V = SComment;

    open spec fn view(&self) -> SComment {
        self.sv()
    }
}

impl View for StringLiteral {
    type V = Seq<char>;

    open spec fn view(&self) -> Seq<char> {
        self.raw@
    }
}

impl View for TrailingComment {
    type V = Seq<char>;

    open spec fn view(&self) -> Seq<char> {
        self.text@
    }
}

impl View for Entry {
    type V = SEntry;

    open spec fn view(&self) -> SEntry {
        self.sv()
    }
}

impl View for ArrayItem {
    type V = SArrayItem;

    open spec fn view(&self) -> SArrayItem {
        self.sv()
    }
}

} // verus!
