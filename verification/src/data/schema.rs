//! Schemas: the fields of a record, declared by a JSON object.

use vstd::prelude::*;
use vstd::string::*;
use vstd::utf8::encode_utf8;

verus! {

pub const NAME_LEN: usize = 64;

/// Byte length of the null flag each nullable field gets.
pub const NULL_FLAG_SIZE: u32 = 1;

/// Byte length of the actual-size prefix a String/Blob field gets on write.
pub const LEN_PREFIX_SIZE: u32 = 4;

#[derive(Debug, Clone, Copy, PartialEq, Eq, Structural)]
pub enum DataType {
    Int,
    String,
    Bool,
    Float,
    Blob,
}

/// Why a declaration is no schema.
#[derive(Debug)]
pub enum SchemaError {
    NotAnObject,
    UnknownType(String),
    MissingSize(String),
    InvalidSize(String),
    UnexpectedSize(String),
    NameTooLong(String),
}

/// The same, with the text that it is about.
pub enum Fault {
    NotAnObject,
    UnknownType(Seq<char>),
    MissingSize(Seq<char>),
    InvalidSize(Seq<char>),
    UnexpectedSize(Seq<char>),
    NameTooLong(Seq<char>),
}

impl View for SchemaError {
    type V = Fault;

    open spec fn view(&self) -> Fault {
        match self {
            SchemaError::NotAnObject => Fault::NotAnObject,
            SchemaError::UnknownType(t) => Fault::UnknownType(t@),
            SchemaError::MissingSize(t) => Fault::MissingSize(t@),
            SchemaError::InvalidSize(t) => Fault::InvalidSize(t@),
            SchemaError::UnexpectedSize(t) => Fault::UnexpectedSize(t@),
            SchemaError::NameTooLong(n) => Fault::NameTooLong(n@),
        }
    }
}

impl Fault {
    /// What the error says.
    pub open spec fn text(self) -> Seq<char> {
        match self {
            Fault::NotAnObject => "schema must be a JSON object"@,
            Fault::UnknownType(t) => "unknown field type: "@ + t,
            Fault::MissingSize(t) => "String/Blob need a length: "@ + t,
            Fault::InvalidSize(t) => "invalid field length: "@ + t,
            Fault::UnexpectedSize(t) => "fixed-size type takes no length: "@ + t,
            Fault::NameTooLong(n) => "field name longer than 64 bytes: "@ + n,
        }
    }
}

/// Two texts, one after the other.
fn joined(head: &str, tail: &str) -> (text: String)
    ensures
        text@ == head@ + tail@,
{
    let mut text = head.to_owned();
    text.append(tail);
    text
}

impl SchemaError {
    /// What the error says.
    pub fn message(&self) -> (text: String)
        ensures
            text@ == self@.text(),
    {
        match self {
            SchemaError::NotAnObject => "schema must be a JSON object".to_owned(),
            SchemaError::UnknownType(t) => joined("unknown field type: ", t.as_str()),
            SchemaError::MissingSize(t) => joined("String/Blob need a length: ", t.as_str()),
            SchemaError::InvalidSize(t) => joined("invalid field length: ", t.as_str()),
            SchemaError::UnexpectedSize(t) => {
                joined("fixed-size type takes no length: ", t.as_str())
            },
            SchemaError::NameTooLong(n) => joined("field name longer than 64 bytes: ", n.as_str()),
        }
    }
}

// -- declarations ------------------------------------------------------------------------

/// A character that parts words: one with the Unicode property White_Space.
pub open spec fn is_space(c: char) -> bool {
    let n = c as u32;
    ||| 0x09 <= n <= 0x0d
    ||| n == 0x20
    ||| n == 0x85
    ||| n == 0xa0
    ||| n == 0x1680
    ||| 0x2000 <= n <= 0x200a
    ||| n == 0x2028
    ||| n == 0x2029
    ||| n == 0x202f
    ||| n == 0x205f
    ||| n == 0x3000
}

fn space(c: char) -> (r: bool)
    ensures
        r == is_space(c),
{
    let n: u32 = c as u32;
    0x09 <= n && n <= 0x0d || n == 0x20 || n == 0x85 || n == 0xa0 || n == 0x1680 || 0x2000 <= n
        && n <= 0x200a || n == 0x2028 || n == 0x2029 || n == 0x202f || n == 0x205f || n == 0x3000
}

/// The words of a text: the runs of characters between spaces.
pub open spec fn words(s: Seq<char>) -> Seq<Seq<char>>
    decreases s.len(),
{
    if s.len() == 0 {
        Seq::empty()
    } else {
        let before = words(s.drop_last());
        if is_space(s.last()) {
            before
        } else if s.len() > 1 && !is_space(s[s.len() - 2]) {
            before.drop_last().push(before.last().push(s.last()))
        } else {
            before.push(seq![s.last()])
        }
    }
}

/// A word without the mark for nullable fields, and whether it had one.
pub open spec fn unmarked(word: Seq<char>) -> (Seq<char>, bool) {
    if word.len() > 0 && word.last() == '?' {
        (word.drop_last(), true)
    } else {
        (word, false)
    }
}

/// A letter in lower case, if it is one of the ASCII letters.
pub open spec fn lower(c: char) -> char {
    if 'A' <= c <= 'Z' {
        (c as u32 + 32) as char
    } else {
        c
    }
}

/// Two words are the same but for the case of ASCII letters; `name` is in lower case.
pub open spec fn named(word: Seq<char>, name: Seq<char>) -> bool {
    &&& word.len() == name.len()
    &&& forall|i: int| 0 <= i < word.len() ==> lower(#[trigger] word[i]) == name[i]
}

/// The type with a name.
pub open spec fn type_named(word: Seq<char>) -> Option<DataType> {
    if named(word, "int"@) {
        Some(DataType::Int)
    } else if named(word, "string"@) {
        Some(DataType::String)
    } else if named(word, "bool"@) {
        Some(DataType::Bool)
    } else if named(word, "float"@) {
        Some(DataType::Float)
    } else if named(word, "blob"@) {
        Some(DataType::Blob)
    } else {
        None
    }
}

/// The value of decimal digits, or nothing if there is anything else or no digit at all.
pub open spec fn digits_value(s: Seq<char>) -> Option<int>
    decreases s.len(),
{
    if s.len() == 0 || !('0' <= s.last() <= '9') {
        None
    } else if s.len() == 1 {
        Some(s.last() as int - '0' as int)
    } else {
        match digits_value(s.drop_last()) {
            Some(n) => Some(10 * n + (s.last() as int - '0' as int)),
            None => None,
        }
    }
}

/// The length that a word declares: decimal digits, with or without a plus sign before them, of a
/// value that 32 bits can hold and that is not 0.
pub open spec fn declared_len(word: Seq<char>) -> Option<u32> {
    let digits = if word.len() > 0 && word[0] == '+' {
        word.skip(1)
    } else {
        word
    };
    match digits_value(digits) {
        Some(n) => if 0 < n <= u32::MAX {
            Some(n as u32)
        } else {
            None
        },
        None => None,
    }
}

/// The size of a fixed-size type.
pub open spec fn fixed_size(ty: DataType) -> u32 {
    if ty == DataType::Bool {
        1
    } else {
        8
    }
}

/// What a declaration declares: the type, the content size and whether the field is nullable. The
/// mark for that stands behind the type or else, where there is one, behind the length.
pub open spec fn declared(decl: Seq<char>) -> Result<(DataType, u32, bool), Fault> {
    let w = words(decl);
    let (base, marked) = unmarked(
        if w.len() > 0 {
            w[0]
        } else {
            Seq::empty()
        },
    );
    match type_named(base) {
        None => Err(Fault::UnknownType(decl)),
        Some(DataType::String) | Some(DataType::Blob) => if w.len() < 2 {
            Err(Fault::MissingSize(decl))
        } else if w.len() > 2 {
            Err(Fault::InvalidSize(decl))
        } else {
            let (len, marked_behind) = if marked {
                (w[1], false)
            } else {
                unmarked(w[1])
            };
            match declared_len(len) {
                Some(n) => Ok((type_named(base)->0, n, marked || marked_behind)),
                None => Err(Fault::InvalidSize(decl)),
            }
        },
        Some(ty) => if w.len() > 1 {
            Err(Fault::UnexpectedSize(decl))
        } else {
            Ok((ty, fixed_size(ty), marked))
        },
    }
}

/// The characters of a text.
fn chars_of(s: &str) -> (chars: Vec<char>)
    ensures
        chars@ == s@,
{
    broadcast use vstd::string::axiom_spec_iter;

    let mut chars: Vec<char> = Vec::new();
    for c in it: s.chars()
        invariant
            it.seq() == s@,
            chars@ == s@.take(it.index()),
    {
        chars.push(c);
        assert(chars@ =~= s@.take(it.index() + 1));
    }
    assert(chars@ =~= s@);
    chars
}

/// The words of a text.
fn split_words(s: &Vec<char>) -> (found: Vec<Vec<char>>)
    ensures
        found@.len() == words(s@).len(),
        forall|i: int| 0 <= i < found@.len() ==> (#[trigger] found@[i])@ == words(s@)[i],
{
    let mut found: Vec<Vec<char>> = Vec::new();
    let mut word: Vec<char> = Vec::new();
    let mut i: usize = 0;
    assert(s@.take(0) =~= Seq::empty());
    while i < s.len()
        invariant
            i <= s@.len(),
            ({
                let w = words(s@.take(i as int));
                let inside = i > 0 && !is_space(s@[i - 1]);
                &&& word@.len() > 0 <==> inside
                &&& w.len() == found@.len() + if inside {
                    1int
                } else {
                    0int
                }
                &&& inside ==> w.last() == word@
                &&& forall|j: int| 0 <= j < found@.len() ==> (#[trigger] found@[j])@ == w[j]
            }),
        decreases s@.len() - i,
    {
        let c: char = s[i];
        let ghost prefix = s@.take(i as int);
        let ghost next = s@.take(i + 1);
        let ghost w = words(prefix);
        assert(next.drop_last() =~= prefix);
        assert(next.last() == c);
        if space(c) {
            if word.len() > 0 {
                let mut done: Vec<char> = Vec::new();
                std::mem::swap(&mut done, &mut word);
                found.push(done);
            }
        } else {
            let ghost before = word@;
            word.push(c);
            proof {
                if i > 0 && !is_space(s@[i - 1]) {
                    assert(next[next.len() - 2] == s@[i - 1]);
                } else {
                    assert(before =~= Seq::empty());
                    assert(word@ =~= seq![c]);
                }
            }
        }
        i += 1;
    }
    assert(s@.take(i as int) =~= s@);
    if word.len() > 0 {
        found.push(word);
    }
    found
}

/// Drops the mark for nullable fields from the end of a word, and tells whether it was there.
fn drop_mark(word: &mut Vec<char>) -> (marked: bool)
    ensures
        (final(word)@, marked) == unmarked(old(word)@),
{
    if word.len() > 0 && word[word.len() - 1] == '?' {
        word.pop();
        true
    } else {
        false
    }
}

fn is_named(word: &Vec<char>, name: &str) -> (r: bool)
    ensures
        r == named(word@, name@),
{
    let name_chars = chars_of(name);
    if word.len() != name_chars.len() {
        return false;
    }
    let mut i: usize = 0;
    while i < word.len()
        invariant
            i <= word@.len(),
            name_chars@ == name@,
            word@.len() == name@.len(),
            forall|j: int| 0 <= j < i ==> lower(#[trigger] word@[j]) == name@[j],
        decreases word@.len() - i,
    {
        let c: char = word[i];
        let low: char = if 'A' <= c && c <= 'Z' {
            lower_ascii(c)
        } else {
            c
        };
        if low != name_chars[i] {
            assert(lower(word@[i as int]) != name@[i as int]);
            return false;
        }
        i += 1;
    }
    true
}

fn lower_ascii(c: char) -> (low: char)
    requires
        'A' <= c <= 'Z',
    ensures
        low == lower(c),
{
    let n: u8 = c as u8 + 32;
    n as char
}

/// The length that a word declares.
fn parse_len(word: &Vec<char>) -> (len: Option<u32>)
    ensures
        len == declared_len(word@),
{
    let start: usize = if word.len() > 0 && word[0] == '+' {
        1
    } else {
        0
    };
    let ghost digits = word@.skip(start as int);
    assert(start == 0 ==> digits =~= word@);
    if start == word.len() {
        return None;
    }
    let mut n: u64 = 0;
    let mut i: usize = start;
    while i < word.len()
        invariant
            start <= i <= word@.len(),
            start < word@.len(),
            digits == word@.skip(start as int),
            declared_len(word@) == match digits_value(digits) {
                Some(n) => if 0 < n <= u32::MAX {
                    Some(n as u32)
                } else {
                    None
                },
                None => None,
            },
            n <= 0x1_0000_0000,
            i == start ==> n == 0,
            i > start ==> match digits_value(digits.take(i - start)) {
                Some(v) => if v <= u32::MAX {
                    n == v
                } else {
                    n == 0x1_0000_0000
                },
                None => false,
            },
        decreases word@.len() - i,
    {
        let c: char = word[i];
        let ghost before = digits.take(i - start);
        let ghost after = digits.take(i + 1 - start);
        assert(after.drop_last() =~= before);
        assert(after.last() == c);
        if c < '0' || '9' < c {
            proof {
                lemma_digits(digits, i - start);
            }
            return None;
        }
        let d: u64 = c as u64 - '0' as u64;
        n = if n > u32::MAX as u64 || 10 * n + d > u32::MAX as u64 {
            0x1_0000_0000
        } else {
            10 * n + d
        };
        i += 1;
    }
    assert(digits.take(i - start) =~= digits);
    if n == 0 || n > u32::MAX as u64 {
        return None;
    }
    Some(n as u32)
}

/// What is not a digit makes the whole no number.
proof fn lemma_digits(s: Seq<char>, at: int)
    requires
        0 <= at < s.len(),
        !('0' <= s[at] <= '9'),
    ensures
        digits_value(s) is None,
    decreases s.len(),
{
    if at < s.len() - 1 {
        lemma_digits(s.drop_last(), at);
    }
}

/// The type with a name.
fn parse_type(word: &Vec<char>) -> (ty: Option<DataType>)
    ensures
        ty == type_named(word@),
{
    if is_named(word, "int") {
        Some(DataType::Int)
    } else if is_named(word, "string") {
        Some(DataType::String)
    } else if is_named(word, "bool") {
        Some(DataType::Bool)
    } else if is_named(word, "float") {
        Some(DataType::Float)
    } else if is_named(word, "blob") {
        Some(DataType::Blob)
    } else {
        None
    }
}

impl DataType {
    /// What a declaration declares: the type, the content size and whether the field is nullable.
    pub fn parse(decl: &str) -> (parsed: Result<(DataType, u32, bool), SchemaError>)
        ensures
            match parsed {
                Ok(p) => declared(decl@) == Ok::<(DataType, u32, bool), Fault>(p),
                Err(e) => declared(decl@) == Err::<(DataType, u32, bool), Fault>(e@),
            },
    {
        let chars = chars_of(decl);
        let mut parts = split_words(&chars);
        let ghost w = words(decl@);
        let count: usize = parts.len();
        let mut len: Vec<char> = Vec::new();
        if count == 2 {
            if let Some(word) = parts.pop() {
                len = word;
            }
        }
        let mut ty: Vec<char> = Vec::new();
        if count > 0 {
            ty = parts.swap_remove(0);
        }
        proof {
            assert(count == 0 ==> ty@ =~= Seq::empty());
        }
        let marked: bool = drop_mark(&mut ty);
        let base = match parse_type(&ty) {
            Some(base) => base,
            None => {
                return Err(SchemaError::UnknownType(decl.to_owned()));
            },
        };
        match base {
            DataType::Int | DataType::Float | DataType::Bool => {
                if count > 1 {
                    return Err(SchemaError::UnexpectedSize(decl.to_owned()));
                }
                let size: u32 = if base == DataType::Bool {
                    1
                } else {
                    8
                };
                Ok((base, size, marked))
            },
            DataType::String | DataType::Blob => {
                if count < 2 {
                    return Err(SchemaError::MissingSize(decl.to_owned()));
                }
                if count > 2 {
                    return Err(SchemaError::InvalidSize(decl.to_owned()));
                }
                let marked_behind: bool = !marked && drop_mark(&mut len);
                match parse_len(&len) {
                    Some(size) => Ok((base, size, marked || marked_behind)),
                    None => Err(SchemaError::InvalidSize(decl.to_owned())),
                }
            },
        }
    }
}

// -- fields ------------------------------------------------------------------------------

#[derive(Debug, Clone)]
pub struct Field {
    pub name: [u8; NAME_LEN],
    /// Byte offset of the field's first byte in a record. For String/Blob that is the 5-byte
    /// `[null, length]` prefix; for a nullable fixed-size field it is the 1-byte null flag.
    pub offset: u32,
    /// Content size in bytes, excluding any null flag or length prefix.
    pub size: u32,
    pub ty: DataType,
    pub nullable: bool,
}

/// What a field says.
#[verifier::ext_equal]
pub struct FieldView {
    pub name: Seq<u8>,
    pub offset: int,
    pub size: u32,
    pub ty: DataType,
    pub nullable: bool,
}

/// On-disk width of a field.
pub open spec fn width_of(ty: DataType, size: u32, nullable: bool) -> int {
    if ty == DataType::String || ty == DataType::Blob {
        NULL_FLAG_SIZE + LEN_PREFIX_SIZE + size
    } else if nullable {
        size + NULL_FLAG_SIZE
    } else {
        size as int
    }
}

impl View for Field {
    type V = FieldView;

    open spec fn view(&self) -> FieldView {
        FieldView {
            name: self.name@,
            offset: self.offset as int,
            size: self.size,
            ty: self.ty,
            nullable: self.nullable,
        }
    }
}

impl FieldView {
    pub open spec fn width(self) -> int {
        width_of(self.ty, self.size, self.nullable)
    }

    /// Where the next field begins.
    pub open spec fn end(self) -> int {
        self.offset + self.width()
    }
}

impl Field {
    /// On-disk width of the field.
    ///
    /// String/Blob always carry a 5-byte `[null, length]` prefix regardless of nullability.
    /// Fixed-size fields only add the 1-byte null flag when nullable.
    pub fn width(&self) -> (width: u32)
        requires
            self@.width() <= u32::MAX,
        ensures
            width == self@.width(),
            width == self.size + match self.ty {
                DataType::String => 5int,
                DataType::Blob => 5,
                _ => if self.nullable {
                    1
                } else {
                    0
                },
            },
    {
        match self.ty {
            DataType::String | DataType::Blob => NULL_FLAG_SIZE + LEN_PREFIX_SIZE + self.size,
            _ => self.size + if self.nullable {
                NULL_FLAG_SIZE
            } else {
                0
            },
        }
    }

    /// Whether the field ends within the first 4 GiB of a record.
    fn is_reachable(&self) -> (r: bool)
        ensures
            r == (self@.end() <= u32::MAX),
            r == (self.offset + self.size + match self.ty {
                DataType::String => 5int,
                DataType::Blob => 5,
                _ => if self.nullable {
                    1
                } else {
                    0
                },
            } <= 0xffff_ffff),
    {
        let before: u32 = match self.ty {
            DataType::String | DataType::Blob => NULL_FLAG_SIZE + LEN_PREFIX_SIZE,
            _ => if self.nullable {
                NULL_FLAG_SIZE
            } else {
                0
            },
        };
        self.offset as u64 + before as u64 + self.size as u64 <= u32::MAX as u64
    }
}

#[derive(Debug, Clone)]
pub struct Schema {
    pub name: [u8; NAME_LEN],
    pub version: u16,
    pub fields: Vec<Field>,
}

/// A name as it is stored: its bytes, then zeros. Nothing if it is too long.
pub open spec fn stored_name(name: Seq<char>) -> Option<Seq<u8>> {
    let b = encode_utf8(name);
    if b.len() > NAME_LEN {
        None
    } else {
        Some(b + Seq::new((NAME_LEN - b.len()) as nat, |i: int| 0u8))
    }
}

fn encode_name(s: &str) -> (name: Result<[u8; NAME_LEN], SchemaError>)
    ensures
        match name {
            Ok(name) => stored_name(s@) == Some(name@),
            Err(e) => stored_name(s@) is None && e@ == Fault::NameTooLong(s@),
        },
{
    let b = s.as_bytes();
    if b.len() > NAME_LEN {
        return Err(SchemaError::NameTooLong(s.to_owned()));
    }
    let mut out: [u8; NAME_LEN] = [0u8;NAME_LEN];
    let mut i: usize = 0;
    while i < b.len()
        invariant
            i <= b@.len() <= NAME_LEN,
            out@.len() == NAME_LEN,
            forall|j: int|
                0 <= j < NAME_LEN ==> #[trigger] out@[j] == if j < i {
                    b@[j]
                } else {
                    0u8
                },
        decreases b@.len() - i,
    {
        out[i] = b[i];
        i += 1;
    }
    assert(out@ =~= b@ + Seq::new((NAME_LEN - b@.len()) as nat, |i: int| 0u8));
    Ok(out)
}

/// A JSON value, as far as a schema looks into it: the members of an object in their order, the
/// text of a string, and anything else.
#[derive(Debug)]
pub enum Json {
    Object(Vec<(String, Json)>),
    String(String),
    Other,
}

/// The members of an object.
pub open spec fn members(value: Json) -> Seq<(String, Json)> {
    match value {
        Json::Object(m) => m@,
        _ => Seq::empty(),
    }
}

/// The name of a member: that of the object around it and its key, with a dot between them.
pub open spec fn dotted(prefix: Seq<char>, key: Seq<char>) -> Seq<char> {
    if prefix.len() == 0 {
        key
    } else {
        prefix + "."@ + key
    }
}

/// Where the field after `fields` begins: right behind the last of them.
pub open spec fn next_offset(fields: Seq<FieldView>) -> int {
    if fields.len() == 0 {
        0
    } else {
        fields.last().end()
    }
}

/// `fields` and one more, or what is wrong with its declaration.
pub open spec fn with_field(fields: Seq<FieldView>, name: Seq<char>, decl: Seq<char>) -> (
    Seq<FieldView>,
    Option<Fault>,
) {
    match declared(decl) {
        Err(fault) => (fields, Some(fault)),
        Ok((ty, size, nullable)) => match stored_name(name) {
            None => (fields, Some(Fault::NameTooLong(name))),
            Some(name) => (
                fields.push(
                    FieldView { name, offset: next_offset(fields), size, ty, nullable },
                ),
                None,
            ),
        },
    }
}

/// The fields that the members of an object declare, from member `i` on, behind `fields`; and what
/// is wrong with the first member with which anything is wrong.
pub open spec fn collected(prefix: Seq<char>, value: Json, i: int, fields: Seq<FieldView>) -> (
    Seq<FieldView>,
    Option<Fault>,
)
    decreases value, members(value).len() - i,
{
    if !(value is Object) {
        (fields, Some(Fault::NotAnObject))
    } else if i < 0 || i >= members(value).len() {
        (fields, None)
    } else {
        let (key, val) = members(value)[i];
        let full = dotted(prefix, key@);
        let (more, fault) = match val {
            Json::Object(_) => collected(full, val, 0, fields),
            Json::String(decl) => with_field(fields, full, decl@),
            Json::Other => (fields, Some(Fault::NotAnObject)),
        };
        if fault is Some {
            (more, fault)
        } else {
            collected(prefix, value, i + 1, more)
        }
    }
}

/// Every field ends within the first 4 GiB of a record.
pub open spec fn reachable(fields: Seq<FieldView>) -> bool {
    forall|i: int| 0 <= i < fields.len() ==> (#[trigger] fields[i]).end() <= u32::MAX
}

/// What fields say.
pub open spec fn views(fields: Seq<Field>) -> Seq<FieldView> {
    Seq::new(fields.len(), |i: int| fields[i]@)
}

/// Fields are added behind those that are there.
proof fn lemma_collected_grows(prefix: Seq<char>, value: Json, i: int, fields: Seq<FieldView>)
    ensures
        ({
            let all = collected(prefix, value, i, fields).0;
            &&& fields.len() <= all.len()
            &&& forall|j: int| 0 <= j < fields.len() ==> #[trigger] all[j] == fields[j]
        }),
    decreases value, members(value).len() - i,
{
    if value is Object && 0 <= i < members(value).len() {
        let (key, val) = members(value)[i];
        let full = dotted(prefix, key@);
        let (more, fault) = match val {
            Json::Object(_) => collected(full, val, 0, fields),
            Json::String(decl) => with_field(fields, full, decl@),
            Json::Other => (fields, Some(Fault::NotAnObject)),
        };
        if val is Object {
            lemma_collected_grows(full, val, 0, fields);
        }
        if fault is None {
            lemma_collected_grows(prefix, value, i + 1, more);
            let all = collected(prefix, value, i, fields).0;
            assert forall|j: int| 0 <= j < fields.len() implies #[trigger] all[j]
                == fields[j] by {
                assert(more[j] == fields[j]);
            }
        }
    }
}

/// Fields of which more are reachable are reachable.
proof fn lemma_reachable_front(all: Seq<FieldView>, fields: Seq<FieldView>)
    requires
        reachable(all),
        fields.len() <= all.len(),
        forall|j: int| 0 <= j < fields.len() ==> #[trigger] all[j] == fields[j],
    ensures
        reachable(fields),
{
    assert forall|i: int| 0 <= i < fields.len() implies (#[trigger] fields[i]).end()
        <= u32::MAX by {
        assert(all[i] == fields[i]);
    }
}

/// Why no more fields are added.
enum Halt {
    /// Something is wrong with a declaration.
    Fault(SchemaError),
    /// A field does not end within the first 4 GiB of a record.
    TooWide,
}

/// Fields were added as far as `all` goes, the fields that there would be, with what would be
/// wrong.
spec fn added_up(
    all: (Seq<FieldView>, Option<Fault>),
    done: Result<(), Halt>,
    fields: Seq<FieldView>,
) -> bool {
    match done {
        Ok(()) => all.1 is None && fields == all.0 && reachable(all.0),
        Err(Halt::Fault(e)) => all.1 == Some(e@) && reachable(all.0),
        Err(Halt::TooWide) => !reachable(all.0),
    }
}

/// Adds the field that a declaration declares.
fn add_field(fields: &mut Vec<Field>, name: &str, decl: &str) -> (added: Result<(), Halt>)
    requires
        reachable(views(old(fields)@)),
    ensures
        added_up(with_field(views(old(fields)@), name@, decl@), added, views(final(fields)@)),
{
    let ghost before = views(fields@);
    let (ty, size, nullable) = match DataType::parse(decl) {
        Ok(parsed) => parsed,
        Err(e) => {
            return Err(Halt::Fault(e));
        },
    };
    let stored = match encode_name(name) {
        Ok(stored) => stored,
        Err(e) => {
            return Err(Halt::Fault(e));
        },
    };
    let count: usize = fields.len();
    let offset: u32 = if count == 0 {
        0
    } else {
        let last = &fields[count - 1];
        assert(last@ == before[count - 1]);
        assert(last@.end() <= u32::MAX);
        last.offset + last.width()
    };
    let field = Field { name: stored, offset, size, ty, nullable };
    let ghost all = before.push(field@);
    proof {
        assert(field@ =~= (FieldView {
            name: stored@,
            offset: next_offset(before),
            size,
            ty,
            nullable,
        }));
        assert(all == with_field(before, name@, decl@).0);
        assert(all[before.len() as int] == field@);
    }
    if !field.is_reachable() {
        return Err(Halt::TooWide);
    }
    fields.push(field);
    proof {
        assert(views(fields@) =~= all);
        assert forall|i: int| 0 <= i < all.len() implies (#[trigger] all[i]).end() <= u32::MAX by {
            if i < before.len() {
                assert(before[i].end() <= u32::MAX);
            }
        }
    }
    Ok(())
}

/// The name of a member.
fn full_name(prefix: &str, key: &str) -> (full: String)
    ensures
        full@ == dotted(prefix@, key@),
{
    if prefix.is_empty() {
        key.to_owned()
    } else {
        let mut full = prefix.to_owned();
        full.append(".");
        full.append(key);
        full
    }
}

/// Adds the fields that the members of an object declare.
fn collect_fields(prefix: &str, value: &Json, fields: &mut Vec<Field>) -> (done: Result<(), Halt>)
    requires
        reachable(views(old(fields)@)),
    ensures
        added_up(collected(prefix@, *value, 0, views(old(fields)@)), done, views(final(fields)@)),
    decreases *value,
{
    let obj = match value {
        Json::Object(obj) => obj,
        _ => {
            return Err(Halt::Fault(SchemaError::NotAnObject));
        },
    };
    let ghost whole = collected(prefix@, *value, 0, views(fields@));
    let mut i: usize = 0;
    while i < obj.len()
        invariant
            *value == Json::Object(*obj),
            i <= obj@.len(),
            whole == collected(prefix@, *value, i as int, views(fields@)),
            whole == collected(prefix@, *value, 0, views(old(fields)@)),
            reachable(views(fields@)),
        decreases obj@.len() - i,
    {
        let ghost before = views(fields@);
        let (key, val) = &obj[i];
        let full = full_name(prefix, key.as_str());
        assert(members(*value)[i as int] == obj@[i as int]);
        let ghost (more, fault) = match val {
            Json::Object(_) => collected(full@, *val, 0, before),
            Json::String(decl) => with_field(before, full@, decl@),
            Json::Other => (before, Some(Fault::NotAnObject)),
        };
        let done = match val {
            Json::Object(_) => collect_fields(full.as_str(), val, fields),
            Json::String(decl) => add_field(fields, full.as_str(), decl.as_str()),
            Json::Other => Err(Halt::Fault(SchemaError::NotAnObject)),
        };
        proof {
            if fault is None {
                lemma_collected_grows(prefix@, *value, i + 1, more);
            }
            if reachable(whole.0) {
                lemma_reachable_front(whole.0, more);
            }
        }
        if let Err(halt) = done {
            return Err(halt);
        }
        i += 1;
    }
    Ok(())
}

/// Whether the fields that an object declares fit into a record, up to the first member with which
/// anything is wrong.
pub fn fields_fit(value: &Json) -> (fit: bool)
    ensures
        fit == reachable(collected(Seq::empty(), *value, 0, Seq::empty()).0),
{
    let mut fields: Vec<Field> = Vec::new();
    assert(views(fields@) =~= Seq::empty());
    proof {
        reveal_strlit("");
        assert(""@ =~= Seq::<char>::empty());
    }
    match collect_fields("", value, &mut fields) {
        Err(Halt::TooWide) => false,
        _ => true,
    }
}

/// What a declaration comes to: the stored name and the fields, or what is wrong with it.
pub open spec fn schema_of(name: Seq<char>, value: Json) -> Result<
    (Seq<u8>, Seq<FieldView>),
    Fault,
> {
    let (fields, fault) = collected(Seq::empty(), value, 0, Seq::empty());
    match fault {
        Some(fault) => Err(fault),
        None => match stored_name(name) {
            Some(name) => Ok((name, fields)),
            None => Err(Fault::NameTooLong(name)),
        },
    }
}

/// Build a [`Schema`] from a JSON object.
///
/// Values are `"Type"` (Int/Float/Bool), `"Type N"` (String/Blob), and a trailing `?` marks a
/// field nullable (`"Int?"`, `"String 64?"`, `"String? 64"`). Nested objects flatten into dotted
/// field names:
///
/// ```json
/// { "name": { "first": "String 64", "last": "String 64" }, "id": "Int" }
/// ```
///
/// yields fields `name.first`, `name.last`, `id`.
pub fn schema_from_json(name: &str, value: &Json) -> (schema: Result<Schema, SchemaError>)
    requires
        reachable(collected(Seq::empty(), *value, 0, Seq::empty()).0),
    ensures
        match schema {
            Ok(schema) => {
                &&& schema_of(name@, *value) == Ok::<(Seq<u8>, Seq<FieldView>), Fault>(
                    (schema.name@, views(schema.fields@)),
                )
                &&& schema.version == 0
            },
            Err(e) => schema_of(name@, *value) == Err::<(Seq<u8>, Seq<FieldView>), Fault>(e@),
        },
{
    let mut fields: Vec<Field> = Vec::new();
    assert(views(fields@) =~= Seq::empty());
    proof {
        reveal_strlit("");
        assert(""@ =~= Seq::<char>::empty());
    }
    match collect_fields("", value, &mut fields) {
        Ok(()) => {},
        Err(Halt::Fault(e)) => {
            return Err(e);
        },
        Err(Halt::TooWide) => {
            assert(false);
        },
    }
    let stored = match encode_name(name) {
        Ok(stored) => stored,
        Err(e) => {
            return Err(e);
        },
    };
    Ok(Schema { name: stored, version: 0, fields })
}

/// Every field begins where the one before it ends.
pub open spec fn adjacent(fields: Seq<FieldView>) -> bool {
    forall|j: int|
        0 <= j < fields.len() ==> (#[trigger] fields[j]).offset == if j == 0 {
            0
        } else {
            fields[j - 1].end()
        }
}

proof fn lemma_adjacent(prefix: Seq<char>, value: Json, i: int, fields: Seq<FieldView>)
    requires
        adjacent(fields),
    ensures
        adjacent(collected(prefix, value, i, fields).0),
    decreases value, members(value).len() - i,
{
    if value is Object && 0 <= i < members(value).len() {
        let (key, val) = members(value)[i];
        let full = dotted(prefix, key@);
        let (more, fault) = match val {
            Json::Object(_) => collected(full, val, 0, fields),
            Json::String(decl) => with_field(fields, full, decl@),
            Json::Other => (fields, Some(Fault::NotAnObject)),
        };
        if val is Object {
            lemma_adjacent(full, val, 0, fields);
        }
        if fault is None {
            lemma_adjacent(prefix, value, i + 1, more);
        }
    }
}

/// The fields of a schema lie in a record one behind the other, in their order and without gaps,
/// the first of them at its front.
pub proof fn law_fields_are_adjacent(name: Seq<char>, value: Json)
    requires
        schema_of(name, value) is Ok,
    ensures
        adjacent((schema_of(name, value)->Ok_0).1),
{
    lemma_adjacent(Seq::empty(), value, 0, Seq::empty());
}

} // verus!
