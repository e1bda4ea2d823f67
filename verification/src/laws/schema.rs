//! What declarations mean and how fields lie in a record.

use crate::data::schema::{
    collected, declared, declared_len, digits_value, dotted, is_space, law_fields_are_adjacent, lower,
    members, reachable, schema_of, stored_name, type_named, views, width_of, with_field, words,
    DataType, Fault, Field, FieldView, Json, SchemaError,
};
use vstd::prelude::*;
use vstd::utf8::encode_utf8;

verus! {

// -- widths ------------------------------------------------------------------------------

/// A field of a fixed-size type is as wide as its size, and exactly one byte wider if it is
/// nullable. A String or a Blob takes 5 bytes more than its size either way.
pub proof fn law_width(ty: DataType, size: u32, nullable: bool)
    ensures
        ty == DataType::Int || ty == DataType::Float || ty == DataType::Bool ==> {
            &&& width_of(ty, size, false) == size
            &&& width_of(ty, size, true) == width_of(ty, size, false) + 1
        },
        ty == DataType::String || ty == DataType::Blob ==> width_of(ty, size, nullable) == size + 5,
{
}

/// Two fields that differ in nothing but that one is nullable: the nullable one ends one byte behind
/// the other if they are of a fixed-size type, and where the other does if not.
pub proof fn law_null_flag(f: FieldView, g: FieldView)
    requires
        f.ty == g.ty,
        f.size == g.size,
        f.offset == g.offset,
        f.nullable,
        !g.nullable,
    ensures
        f.end() - g.end() == match f.ty {
            DataType::Int => 1int,
            DataType::Float => 1,
            DataType::Bool => 1,
            DataType::String => 0,
            DataType::Blob => 0,
        },
        g.end() - g.offset == g.size + match g.ty {
            DataType::Int => 0int,
            DataType::Float => 0,
            DataType::Bool => 0,
            DataType::String => 5,
            DataType::Blob => 5,
        },
{
}

/// The first field of a schema begins at 0. Every other begins behind the one before it: past its
/// content, and past 5 bytes for a String or a Blob, 1 byte for a nullable field of another type,
/// none for one that is not nullable.
pub proof fn law_offsets(name: Seq<char>, value: Json)
    requires
        schema_of(name, value) is Ok,
    ensures
        ({
            let fields = schema_of(name, value)->Ok_0.1;
            &&& fields.len() > 0 ==> fields[0].offset == 0
            &&& forall|i: int, j: int|
                #![trigger fields[i], fields[j]]
                0 <= i && j == i + 1 && j < fields.len() ==> fields[j].offset == fields[i].offset
                    + fields[i].size + match fields[i].ty {
                    DataType::String => 5int,
                    DataType::Blob => 5,
                    _ => if fields[i].nullable {
                        1
                    } else {
                        0
                    },
                }
        }),
{
    law_fields_are_adjacent(name, value);
    let fields = schema_of(name, value)->Ok_0.1;
    assert forall|i: int, j: int|
        #![trigger fields[i], fields[j]]
        0 <= i && j == i + 1 && j < fields.len() implies fields[j].offset == fields[i].offset
        + fields[i].size + match fields[i].ty {
        DataType::String => 5int,
        DataType::Blob => 5,
        _ => if fields[i].nullable {
            1
        } else {
            0
        },
    } by {
        assert(fields[j].offset == fields[j - 1].end());
    }
}

/// Fields fit into a record if and only if each of them ends within its first 4 GiB: its offset, its
/// size and what stands before its content come to no more than 32 bits hold.
pub proof fn law_reachable(fields: Seq<FieldView>)
    ensures
        reachable(fields) <==> forall|i: int|
            0 <= i < fields.len() ==> (#[trigger] fields[i]).offset + fields[i].size
                + match fields[i].ty {
                DataType::String => 5int,
                DataType::Blob => 5,
                _ => if fields[i].nullable {
                    1
                } else {
                    0
                },
            } <= 0xffff_ffff,
{
    assert forall|i: int| 0 <= i < fields.len() implies (#[trigger] fields[i]).end()
        == fields[i].offset + fields[i].size + match fields[i].ty {
        DataType::String => 5int,
        DataType::Blob => 5,
        _ => if fields[i].nullable {
            1
        } else {
            0
        },
    } by {}
}

/// What a field says is what it holds.
pub proof fn law_field_view(fields: Seq<Field>, i: int)
    requires
        0 <= i < fields.len(),
    ensures
        views(fields).len() == fields.len(),
        views(fields)[i].name == fields[i].name@,
        views(fields)[i].offset == fields[i].offset,
        views(fields)[i].size == fields[i].size,
        views(fields)[i].ty == fields[i].ty,
        views(fields)[i].nullable == fields[i].nullable,
{
}

// -- words and numbers -------------------------------------------------------------------

proof fn lemma_ends_in_word(s: Seq<char>)
    requires
        s.len() > 0,
        !is_space(s.last()),
    ensures
        words(s).len() > 0,
    decreases s.len(),
{
    if s.len() > 1 && !is_space(s[s.len() - 2]) {
        lemma_ends_in_word(s.drop_last());
    }
}

/// The words of two texts with a space between them are those of the first, then those of the
/// second.
pub proof fn law_words_part(a: Seq<char>, space: char, b: Seq<char>)
    requires
        is_space(space),
    ensures
        words(a.push(space) + b) == words(a) + words(b),
    decreases b.len(),
{
    let s = a.push(space) + b;
    if b.len() == 0 {
        assert(s =~= a.push(space));
        assert(s.drop_last() =~= a);
        assert(words(a) + words(b) =~= words(a));
    } else {
        let rest = b.drop_last();
        law_words_part(a, space, rest);
        assert(s.drop_last() =~= a.push(space) + rest);
        assert(s.last() == b.last());
        if !is_space(b.last()) {
            if b.len() > 1 {
                assert(s[s.len() - 2] == b[b.len() - 2]);
                if !is_space(b[b.len() - 2]) {
                    lemma_ends_in_word(rest);
                    let before = words(a) + words(rest);
                    assert(before.drop_last() =~= words(a) + words(rest).drop_last());
                    assert(words(s) =~= words(a) + words(b));
                } else {
                    assert(words(s) =~= words(a) + words(b));
                }
            } else {
                assert(s[s.len() - 2] == space);
                assert(rest =~= Seq::empty());
                assert(words(s) =~= words(a) + words(b));
            }
        }
    }
}

/// A text without spaces is one word, unless it is empty: then it has none.
pub proof fn law_word(s: Seq<char>)
    requires
        forall|i: int| 0 <= i < s.len() ==> !is_space(#[trigger] s[i]),
    ensures
        words(s) == if s.len() == 0 {
            Seq::<Seq<char>>::empty()
        } else {
            seq![s]
        },
    decreases s.len(),
{
    if s.len() > 1 {
        law_word(s.drop_last());
        assert(!is_space(s[s.len() - 2]));
        assert(s.drop_last().push(s.last()) =~= s);
        assert(words(s) =~= seq![s]);
    } else if s.len() == 1 {
        assert(words(s.drop_last()) =~= Seq::empty());
        assert(!is_space(s[0]));
        assert(seq![s.last()] =~= s);
        assert(words(s) =~= seq![s]);
    }
}

/// Blank, tab, line feed and carriage return part words, and so do the other characters that Unicode
/// counts as white space; no letter, digit, sign or mark of a declaration does.
pub proof fn law_spaces(c: char)
    ensures
        is_space(c) <==> {
            let n = c as u32;
            ||| n == 9 || n == 10 || n == 11 || n == 12 || n == 13 || n == 32
            ||| n == 0x85 || n == 0xa0 || n == 0x1680
            ||| n >= 0x2000 && n <= 0x200a
            ||| n == 0x2028 || n == 0x2029 || n == 0x202f || n == 0x205f || n == 0x3000
        },
        c == ' ' || c == '\t' || c == '\n' || c == '\r' ==> is_space(c),
        '!' <= c <= '~' ==> !is_space(c),
{
}

/// The value of digits: one digit is its own value, a digit behind others adds itself to ten times
/// theirs, and anything that is no digit makes the whole no number.
pub proof fn law_digits(s: Seq<char>, c: char)
    ensures
        s.len() == 0 ==> digits_value(s) is None,
        s.len() == 0 && '0' <= c <= '9' ==> digits_value(s.push(c)) == Some(c as int - 48),
        s.len() > 0 && '0' <= c <= '9' ==> match digits_value(s) {
            Some(n) => digits_value(s.push(c)) == Some(10 * n + (c as int - 48)),
            None => digits_value(s.push(c)) is None,
        },
        !('0' <= c <= '9') ==> digits_value(s.push(c)) is None,
{
    assert(s.push(c).drop_last() =~= s);
}

/// A length is a number of digits, with or without a plus sign before them, from 1 to the largest
/// that 32 bits hold.
pub proof fn law_len(digits: Seq<char>)
    requires
        digits.len() > 0,
        digits[0] != '+',
    ensures
        declared_len(digits) == match digits_value(digits) {
            Some(n) => if 1 <= n < 0x1_0000_0000 {
                Some(n as u32)
            } else {
                None
            },
            None => None,
        },
        declared_len(seq!['+'] + digits) == declared_len(digits),
        declared_len(Seq::empty()) is None,
{
    assert((seq!['+'] + digits).skip(1) =~= digits);
    assert(Seq::<char>::empty().len() == 0);
}

// -- types -------------------------------------------------------------------------------

/// A letter, in either case.
pub open spec fn either(c: char, low: char, up: char) -> bool {
    c == low || c == up
}

proof fn lemma_lower(c: char, low: char)
    requires
        'a' <= low <= 'z',
    ensures
        lower(c) == low <==> c == low || c as u32 + 32 == low as u32,
{
}

/// The names of the types, in letters of either case. Nothing else names one.
pub proof fn law_type_names(w: Seq<char>)
    ensures
        type_named(w) == Some(DataType::Int) <==> w.len() == 3 && either(w[0], 'i', 'I') && either(
            w[1],
            'n',
            'N',
        ) && either(w[2], 't', 'T'),
        type_named(w) == Some(DataType::String) <==> w.len() == 6 && either(w[0], 's', 'S')
            && either(w[1], 't', 'T') && either(w[2], 'r', 'R') && either(w[3], 'i', 'I') && either(
            w[4],
            'n',
            'N',
        ) && either(w[5], 'g', 'G'),
        type_named(w) == Some(DataType::Bool) <==> w.len() == 4 && either(w[0], 'b', 'B')
            && either(w[1], 'o', 'O') && either(w[2], 'o', 'O') && either(w[3], 'l', 'L'),
        type_named(w) == Some(DataType::Float) <==> w.len() == 5 && either(w[0], 'f', 'F')
            && either(w[1], 'l', 'L') && either(w[2], 'o', 'O') && either(w[3], 'a', 'A') && either(
            w[4],
            't',
            'T',
        ),
        type_named(w) == Some(DataType::Blob) <==> w.len() == 4 && either(w[0], 'b', 'B')
            && either(w[1], 'l', 'L') && either(w[2], 'o', 'O') && either(w[3], 'b', 'B'),
{
    reveal_strlit("int");
    reveal_strlit("string");
    reveal_strlit("bool");
    reveal_strlit("float");
    reveal_strlit("blob");
    assert forall|i: int, low: char|
        'a' <= low <= 'z' implies #[trigger] same_letter(w[i], low) <==> lower(
        w[i],
    ) == low by {
        lemma_lower(w[i], low);
    }
}

spec fn same_letter(c: char, low: char) -> bool {
    c == low || c as u32 + 32 == low as u32
}

// -- declarations ------------------------------------------------------------------------

/// A fixed-size type: the word alone declares a field of it, with a question mark behind it a
/// nullable one. Int and Float take 8 bytes, Bool takes 1. Any more words are a length that there
/// should not be.
pub proof fn law_fixed_declared(decl: Seq<char>, name: Seq<char>, ty: DataType)
    requires
        type_named(name) == Some(ty),
        ty == DataType::Int || ty == DataType::Float || ty == DataType::Bool,
    ensures
        ({
            let size: u32 = if ty == DataType::Bool {
                1
            } else {
                8
            };
            let w = words(decl);
            &&& w == seq![name] ==> declared(decl) == Ok::<_, Fault>((ty, size, false))
            &&& w == seq![name.push('?')] ==> declared(decl) == Ok::<_, Fault>((ty, size, true))
            &&& w.len() > 1 && (w[0] == name || w[0] == name.push('?')) ==> declared(decl)
                == Err::<(DataType, u32, bool), Fault>(Fault::UnexpectedSize(decl))
        }),
{
    law_type_names(name);
    assert(name.push('?').drop_last() =~= name);
}

/// A String or a Blob: the word and its length. A question mark behind the word or behind the length
/// makes the field nullable; one behind both makes the length none. Without a length, or with more
/// words, there is no field.
pub proof fn law_sized_declared(
    decl: Seq<char>,
    name: Seq<char>,
    ty: DataType,
    len: Seq<char>,
    n: u32,
)
    requires
        type_named(name) == Some(ty),
        ty == DataType::String || ty == DataType::Blob,
        len.len() > 0,
        len.last() != '?',
        declared_len(len) == Some(n),
    ensures
        ({
            let w = words(decl);
            &&& w == seq![name, len] ==> declared(decl) == Ok::<_, Fault>((ty, n, false))
            &&& w == seq![name.push('?'), len] ==> declared(decl) == Ok::<_, Fault>((ty, n, true))
            &&& w == seq![name, len.push('?')] ==> declared(decl) == Ok::<_, Fault>((ty, n, true))
            &&& w == seq![name.push('?'), len.push('?')] ==> declared(decl) == Err::<
                (DataType, u32, bool),
                Fault,
            >(Fault::InvalidSize(decl))
            &&& w.len() == 1 && (w[0] == name || w[0] == name.push('?')) ==> declared(decl) == Err::<
                (DataType, u32, bool),
                Fault,
            >(Fault::MissingSize(decl))
            &&& w.len() > 2 && (w[0] == name || w[0] == name.push('?')) ==> declared(decl) == Err::<
                (DataType, u32, bool),
                Fault,
            >(Fault::InvalidSize(decl))
        }),
{
    law_type_names(name);
    assert(name.push('?').drop_last() =~= name);
    assert(len.push('?').drop_last() =~= len);
    law_digits(len, '?');
    if len[0] == '+' {
        assert(len.push('?').skip(1) =~= len.skip(1).push('?'));
        law_digits(len.skip(1), '?');
    }
}

/// What is declared: the type is named by the first word, without a question mark behind it; the
/// size is that of a fixed-size type or the length that the second of two words declares; the field
/// is nullable if and only if a question mark ends one of the words.
pub proof fn law_declared(decl: Seq<char>, ty: DataType, size: u32, nullable: bool)
    requires
        declared(decl) == Ok::<_, Fault>((ty, size, nullable)),
    ensures
        ({
            let w = words(decl);
            let marked = w[0].len() > 0 && w[0].last() == '?';
            let name = if marked {
                w[0].drop_last()
            } else {
                w[0]
            };
            &&& w.len() > 0
            &&& type_named(name) == Some(ty)
            &&& match ty {
                DataType::Int => w.len() == 1 && size == 8 && nullable == marked,
                DataType::Float => w.len() == 1 && size == 8 && nullable == marked,
                DataType::Bool => w.len() == 1 && size == 1 && nullable == marked,
                _ => {
                    let behind = w[1].len() > 0 && w[1].last() == '?';
                    &&& w.len() == 2
                    &&& !(marked && behind)
                    &&& nullable == (marked || behind)
                    &&& declared_len(
                        if behind {
                            w[1].drop_last()
                        } else {
                            w[1]
                        },
                    ) == Some(size)
                },
            }
        }),
{
    let w = words(decl);
    law_type_names(Seq::<char>::empty());
    if ty == DataType::String || ty == DataType::Blob {
        let len = w[1];
        if len.len() > 0 && len.last() == '?' {
            let front = len.drop_last();
            assert(front.push('?') =~= len);
            law_digits(front, '?');
            if len[0] == '+' {
                if front.len() > 0 {
                    assert(len.skip(1) =~= front.skip(1).push('?'));
                    law_digits(front.skip(1), '?');
                }
            }
        }
    }
}

/// A declaration whose first word names no type, with or without a question mark behind it, or that
/// has no word at all, is refused for that.
pub proof fn law_unknown_type(decl: Seq<char>)
    ensures
        ({
            let w = words(decl);
            declared(decl) == Err::<(DataType, u32, bool), Fault>(Fault::UnknownType(decl)) <==> {
                ||| w.len() == 0
                ||| type_named(w[0]) is None && !(w[0].len() > 0 && w[0].last() == '?' && type_named(
                    w[0].drop_last(),
                ) is Some)
            }
        }),
{
    let w = words(decl);
    if w.len() == 0 {
        law_type_names(Seq::<char>::empty());
        assert(type_named(Seq::<char>::empty()) is None);
    } else {
        law_type_names(w[0]);
    }
}

// -- names -------------------------------------------------------------------------------

/// A name of up to 64 bytes is stored in 64: its own first, then zeros. A longer one is not stored.
pub proof fn law_stored_name(name: Seq<char>)
    ensures
        stored_name(name) is Some <==> encode_utf8(name).len() <= 64,
        stored_name(name) is Some ==> {
            let stored = stored_name(name)->0;
            &&& stored.len() == 64
            &&& stored.take(encode_utf8(name).len() as int) == encode_utf8(name)
            &&& forall|i: int| encode_utf8(name).len() <= i < 64 ==> #[trigger] stored[i] == 0
        },
{
    if encode_utf8(name).len() <= 64 {
        assert(stored_name(name)->0.take(encode_utf8(name).len() as int) =~= encode_utf8(name));
    }
}

// -- schemas -----------------------------------------------------------------------------

/// The members of an object that are no objects, from member `i` on, with those of the objects in it
/// at their place: the name of each, the names of the objects around it before it with dots
/// between, and its text if it is one.
pub open spec fn leaves(prefix: Seq<char>, value: Json, i: int) -> Seq<
    (Seq<char>, Option<Seq<char>>),
>
    decreases value, (value->Object_0)@.len() - i,
{
    if !(value is Object) {
        seq![(prefix, None)]
    } else if i < 0 || i >= (value->Object_0)@.len() {
        Seq::empty()
    } else {
        let (key, val) = (value->Object_0)@[i];
        let full = if prefix.len() == 0 {
            key@
        } else {
            prefix.push('.') + key@
        };
        let first = match val {
            Json::Object(_) => leaves(full, val, 0),
            Json::String(decl) => seq![(full, Some(decl@))],
            Json::Other => seq![(full, None)],
        };
        first + leaves(prefix, value, i + 1)
    }
}

/// What is wrong with a member.
pub open spec fn wrong_with(leaf: (Seq<char>, Option<Seq<char>>)) -> Option<Fault> {
    match leaf.1 {
        None => Some(Fault::NotAnObject),
        Some(decl) => match declared(decl) {
            Err(fault) => Some(fault),
            Ok(_) => if encode_utf8(leaf.0).len() > 64 {
                Some(Fault::NameTooLong(leaf.0))
            } else {
                None
            },
        },
    }
}

/// A field is what a member declares.
pub open spec fn declares(leaf: (Seq<char>, Option<Seq<char>>), field: FieldView) -> bool {
    &&& leaf.1 is Some
    &&& declared(leaf.1->0) == Ok::<_, Fault>((field.ty, field.size, field.nullable))
    &&& stored_name(leaf.0) == Some(field.name)
}

/// All of the members were added behind `fields`, or the first that is wrong was found.
#[verifier::opaque]
spec fn told_apart(
    leaves: Seq<(Seq<char>, Option<Seq<char>>)>,
    fields: Seq<FieldView>,
    told: (Seq<FieldView>, Option<Fault>),
) -> bool {
    match told.1 {
        None => {
            &&& told.0.len() == fields.len() + leaves.len()
            &&& forall|j: int| 0 <= j < fields.len() ==> #[trigger] told.0[j] == fields[j]
            &&& forall|k: int|
                0 <= k < leaves.len() ==> wrong_with(#[trigger] leaves[k]) is None && declares(
                    leaves[k],
                    told.0[fields.len() + k],
                )
        },
        Some(f) => exists|k: int| first_wrong(leaves, k, f),
    }
}

/// Member `k` is the first with which anything is wrong.
pub open spec fn first_wrong(
    leaves: Seq<(Seq<char>, Option<Seq<char>>)>,
    k: int,
    fault: Fault,
) -> bool {
    &&& 0 <= k < leaves.len()
    &&& wrong_with(leaves[k]) == Some(fault)
    &&& forall|j: int| 0 <= j < k ==> wrong_with(#[trigger] leaves[j]) is None
}

proof fn lemma_told_none(fields: Seq<FieldView>)
    ensures
        told_apart(Seq::empty(), fields, (fields, None)),
{
    reveal(told_apart);
}

proof fn lemma_told_one(
    leaf: (Seq<char>, Option<Seq<char>>),
    fields: Seq<FieldView>,
    told: (Seq<FieldView>, Option<Fault>),
)
    requires
        wrong_with(leaf) == told.1,
        told.1 is None ==> told.0.len() == fields.len() + 1 && told.0.drop_last() == fields
            && declares(leaf, told.0.last()),
    ensures
        told_apart(seq![leaf], fields, told),
{
    reveal(told_apart);
    if told.1 is Some {
        assert(first_wrong(seq![leaf], 0, told.1->0));
    } else {
        assert forall|j: int| 0 <= j < fields.len() implies #[trigger] told.0[j] == fields[j] by {
            assert(told.0.drop_last()[j] == told.0[j]);
        }
        assert(told.0[fields.len() as int] == told.0.last());
    }
}

/// Nothing is wrong with the first members: then it is as the others say.
proof fn lemma_told_on(
    first: Seq<(Seq<char>, Option<Seq<char>>)>,
    rest: Seq<(Seq<char>, Option<Seq<char>>)>,
    fields: Seq<FieldView>,
    more: Seq<FieldView>,
    told: (Seq<FieldView>, Option<Fault>),
)
    requires
        told_apart(first, fields, (more, None)),
        told_apart(rest, more, told),
    ensures
        told_apart(first + rest, fields, told),
{
    reveal(told_apart);
    let ls = first + rest;
    let all = told.0;
    if told.1 is None {
        assert forall|j: int| 0 <= j < fields.len() implies #[trigger] all[j] == fields[j] by {
            assert(more[j] == fields[j]);
        }
        assert forall|k: int| 0 <= k < ls.len() implies wrong_with(#[trigger] ls[k]) is None
            && declares(ls[k], all[fields.len() + k]) by {
            if k < first.len() {
                assert(ls[k] == first[k]);
                assert(all[fields.len() + k] == more[fields.len() + k]);
            } else {
                let r = k - first.len();
                assert(ls[k] == rest[r]);
                assert(more.len() + r == fields.len() + k);
            }
        }
    } else {
        let f = told.1->0;
        let r = choose|r: int| first_wrong(rest, r, f);
        let k = first.len() + r;
        assert forall|j: int| 0 <= j < k implies wrong_with(#[trigger] ls[j]) is None by {
            if j < first.len() {
                assert(ls[j] == first[j]);
            } else {
                assert(ls[j] == rest[j - first.len()]);
            }
        }
        assert(ls[k] == rest[r]);
        assert(first_wrong(ls, k, f));
    }
}

/// Something is wrong with one of the first members: then that is it.
proof fn lemma_told_early(
    first: Seq<(Seq<char>, Option<Seq<char>>)>,
    rest: Seq<(Seq<char>, Option<Seq<char>>)>,
    fields: Seq<FieldView>,
    told: (Seq<FieldView>, Option<Fault>),
)
    requires
        told.1 is Some,
        told_apart(first, fields, told),
    ensures
        told_apart(first + rest, fields, told),
{
    reveal(told_apart);
    let ls = first + rest;
    let k = choose|k: int| first_wrong(first, k, told.1->0);
    assert forall|j: int| 0 <= j < k implies wrong_with(#[trigger] ls[j]) is None by {
        assert(ls[j] == first[j]);
    }
    assert(ls[k] == first[k]);
    assert(first_wrong(ls, k, told.1->0));
}

proof fn lemma_collected(prefix: Seq<char>, value: Json, i: int, fields: Seq<FieldView>)
    requires
        0 <= i,
    ensures
        told_apart(leaves(prefix, value, i), fields, collected(prefix, value, i, fields)),
    decreases value, (value->Object_0)@.len() - i,
{
    if !(value is Object) {
        lemma_told_one((prefix, None), fields, collected(prefix, value, i, fields));
    } else if i >= (value->Object_0)@.len() {
        lemma_told_none(fields);
    } else {
        let (key, val) = (value->Object_0)@[i];
        assert(members(value)[i] == (value->Object_0)@[i]);
        let full = dotted(prefix, key@);
        assert(full == if prefix.len() == 0 {
            key@
        } else {
            prefix.push('.') + key@
        }) by {
            reveal_strlit(".");
            assert(prefix + "."@ + key@ =~= prefix.push('.') + key@);
        }
        let first = match val {
            Json::Object(_) => leaves(full, val, 0),
            Json::String(decl) => seq![(full, Some(decl@))],
            Json::Other => seq![(full, None)],
        };
        let rest = leaves(prefix, value, i + 1);
        let early = match val {
            Json::Object(_) => collected(full, val, 0, fields),
            Json::String(decl) => with_field(fields, full, decl@),
            Json::Other => (fields, Some(Fault::NotAnObject)),
        };
        match val {
            Json::Object(_) => {
                lemma_collected(full, val, 0, fields);
            },
            Json::String(decl) => {
                law_stored_name(full);
                assert(early.1 is None ==> early.0.drop_last() =~= fields);
                lemma_told_one((full, Some(decl@)), fields, early);
            },
            Json::Other => {
                lemma_told_one((full, None), fields, early);
            },
        }
        if early.1 is Some {
            lemma_told_early(first, rest, fields, early);
        } else {
            lemma_collected(prefix, value, i + 1, early.0);
            lemma_told_on(first, rest, fields, early.0, collected(prefix, value, i + 1, early.0));
        }
    }
}

/// A declaration makes a schema if and only if nothing is wrong with any of its members and its name
/// is no longer than 64 bytes. Then there is one field for each member, in their order, with what it
/// declares. Otherwise the fault is that of the first member with which anything is wrong; that of
/// the name comes last.
pub proof fn law_schema(name: Seq<char>, value: Json)
    ensures
        match schema_of(name, value) {
            Ok((stored, fields)) => {
                let ls = leaves(Seq::empty(), value, 0);
                &&& stored_name(name) == Some(stored)
                &&& fields.len() == ls.len()
                &&& forall|k: int|
                    0 <= k < ls.len() ==> wrong_with(#[trigger] ls[k]) is None && declares(
                        ls[k],
                        fields[k],
                    )
            },
            Err(fault) => {
                let ls = leaves(Seq::empty(), value, 0);
                ||| exists|k: int| first_wrong(ls, k, fault)
                ||| {
                    &&& forall|k: int| 0 <= k < ls.len() ==> wrong_with(#[trigger] ls[k]) is None
                    &&& encode_utf8(name).len() > 64
                    &&& fault == Fault::NameTooLong(name)
                }
            },
        },
{
    lemma_collected(Seq::empty(), value, 0, Seq::empty());
    reveal(told_apart);
    law_stored_name(name);
    let ls = leaves(Seq::empty(), value, 0);
    let (all, fault) = collected(Seq::empty(), value, 0, Seq::empty());
    if fault is None {
        assert forall|k: int| 0 <= k < ls.len() implies wrong_with(#[trigger] ls[k]) is None
            && declares(ls[k], all[k]) by {
            assert(all[0 + k] == all[k]);
        }
    }
}

/// What is said of a declaration that is refused: the reason, and then the text that it is about.
pub proof fn law_fault_texts(e: SchemaError)
    ensures
        match e {
            SchemaError::NotAnObject => e@.text() == "schema must be a JSON object"@,
            SchemaError::UnknownType(t) => e@.text() == "unknown field type: "@ + t@,
            SchemaError::MissingSize(t) => e@.text() == "String/Blob need a length: "@ + t@,
            SchemaError::InvalidSize(t) => e@.text() == "invalid field length: "@ + t@,
            SchemaError::UnexpectedSize(t) => e@.text() == "fixed-size type takes no length: "@
                + t@,
            SchemaError::NameTooLong(n) => e@.text() == "field name longer than 64 bytes: "@ + n@,
        },
{
}

} // verus!
