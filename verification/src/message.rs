//! What the gateway reads and changes of a request or a response.

use crate::text::{ascii_lower, eq_ignore_ascii_case, opt_text, same_ignoring_case};
use vstd::prelude::*;
use vstd::string::*;
use vstd::utf8::{encode_utf8, is_ascii_chars, is_ascii_chars_encode_utf8};

verus! {

/// A header field. The case of the letters in its name does not matter.
#[derive(Debug)]
pub struct Header {
    pub name: String,
    pub value: Vec<u8>,
}

impl Header {
    /// Name and value.
    pub open spec fn view(&self) -> (Seq<char>, Seq<u8>) {
        (self.name@, self.value@)
    }
}

/// Names and values of the fields, in order.
pub open spec fn fields(headers: Seq<Header>) -> Seq<(Seq<char>, Seq<u8>)> {
    Seq::new(headers.len(), |i: int| headers[i]@)
}

/// The parts of a request that decide where it goes.
#[derive(Debug)]
pub struct RequestHead {
    pub path: String,
    pub query: Option<String>,
    pub headers: Vec<Header>,
}

/// A response of the gateway's own.
#[derive(Debug)]
pub struct Reply {
    pub status: u16,
    pub headers: Vec<Header>,
    pub body: String,
}

// ----- values -----

/// The byte is a printable ASCII character or a tab.
pub open spec fn is_visible(b: u8) -> bool {
    32 <= b < 127 || b == 9
}

/// The text of a value, where all of its bytes are visible.
pub open spec fn text_of(value: Seq<u8>) -> Option<Seq<char>> {
    if forall|i: int| 0 <= i < value.len() ==> is_visible(#[trigger] value[i]) {
        Some(Seq::new(value.len(), |i: int| value[i] as char))
    } else {
        None
    }
}

/// The text of a value, where all of its bytes are visible.
pub fn value_text(value: &Vec<u8>) -> (text: Option<String>)
    ensures
        opt_text(text) == text_of(value@),
{
    let mut text = String::new();
    let mut i: usize = 0;
    while i < value.len()
        invariant
            i <= value@.len(),
            text@ == Seq::new(i as nat, |k: int| value@[k] as char),
            forall|k: int| 0 <= k < i ==> is_visible(#[trigger] value@[k]),
        decreases value@.len() - i,
    {
        let b: u8 = value[i];
        if !((32 <= b && b < 127) || b == 9) {
            assert(!is_visible(value@[i as int]));
            return None;
        }
        text.push(b as char);
        assert(text@ =~= Seq::new((i + 1) as nat, |k: int| value@[k] as char));
        i = i + 1;
    }
    Some(text)
}

/// The text can be the value of a header: it holds no control characters but tabs.
pub open spec fn is_header_text(text: Seq<char>) -> bool {
    forall|i: int|
        0 <= i < text.len() ==> #[trigger] text[i] == '\t' || (text[i] as nat >= 32 && text[i]
            != '\u{7f}')
}

/// Whether the text can be the value of a header.
///
/// Trusted: `http::HeaderValue::from_str`, which axum hands on, refuses a text with a byte below 32
/// other than the tab, or with the byte 127, and takes all else. In UTF-8 these bytes stand for
/// the characters of the same number only.
#[verifier::external_body]
pub(crate) fn fits_header(text: &str) -> (b: bool)
    ensures
        b == is_header_text(text@),
{
    axum::http::HeaderValue::from_str(text).is_ok()
}

/// The bytes of a text.
pub fn bytes_of(text: &str) -> (bytes: Vec<u8>)
    ensures
        bytes@ == encode_utf8(text@),
{
    text.as_bytes_vec()
}

// ----- fields -----

/// The two names are the same, apart from the case of ASCII letters.
pub open spec fn same_name(a: Seq<char>, b: Seq<char>) -> bool {
    eq_ignore_ascii_case(a, b)
}

/// What is the same name as one of two that are the same is the same as the other.
pub proof fn lemma_same_name(a: Seq<char>, b: Seq<char>, c: Seq<char>)
    requires
        same_name(b, c),
    ensures
        same_name(a, b) == same_name(a, c),
        same_name(c, b),
{
    if same_name(a, b) {
        assert forall|i: int| 0 <= i < a.len() implies ascii_lower(#[trigger] a[i]) == ascii_lower(
            c[i],
        ) by {
            assert(ascii_lower(b[i]) == ascii_lower(c[i]));
        }
    }
    assert forall|i: int| 0 <= i < c.len() implies ascii_lower(#[trigger] c[i]) == ascii_lower(
        b[i],
    ) by {
        assert(ascii_lower(b[i]) == ascii_lower(c[i]));
    }
    if same_name(a, c) {
        assert forall|i: int| 0 <= i < a.len() implies ascii_lower(#[trigger] a[i]) == ascii_lower(
            b[i],
        ) by {
            assert(ascii_lower(b[i]) == ascii_lower(c[i]));
        }
    }
}

/// The value of the first field from `from` on that has the name.
pub open spec fn first_value(
    fields: Seq<(Seq<char>, Seq<u8>)>,
    name: Seq<char>,
    from: int,
) -> Option<Seq<u8>>
    decreases fields.len() - from,
{
    if from < 0 || from >= fields.len() {
        None
    } else if same_name(fields[from].0, name) {
        Some(fields[from].1)
    } else {
        first_value(fields, name, from + 1)
    }
}

/// The text of the first field that has the name. Where the value of that field is no text there
/// is none.
pub open spec fn header_text(fields: Seq<(Seq<char>, Seq<u8>)>, name: Seq<char>) -> Option<
    Seq<char>,
> {
    match first_value(fields, name, 0) {
        Some(value) => text_of(value),
        None => None,
    }
}

/// The text of the first field that has the name.
pub fn find_text(headers: &Vec<Header>, name: &str) -> (text: Option<String>)
    ensures
        opt_text(text) == header_text(fields(headers@), name@),
{
    let mut i: usize = 0;
    while i < headers.len()
        invariant
            i <= headers@.len(),
            first_value(fields(headers@), name@, 0) == first_value(
                fields(headers@),
                name@,
                i as int,
            ),
        decreases headers@.len() - i,
    {
        if same_ignoring_case(headers[i].name.as_str(), name) {
            return value_text(&headers[i].value);
        }
        i = i + 1;
    }
    None
}

/// Whether a field has the name.
pub open spec fn has_field(fields: Seq<(Seq<char>, Seq<u8>)>, name: Seq<char>) -> bool {
    exists|i: int| 0 <= i < fields.len() && same_name((#[trigger] fields[i]).0, name)
}

/// Whether a field has the name.
pub fn has_header(headers: &Vec<Header>, name: &str) -> (b: bool)
    ensures
        b == has_field(fields(headers@), name@),
{
    let mut i: usize = 0;
    while i < headers.len()
        invariant
            i <= headers@.len(),
            forall|k: int|
                0 <= k < i ==> !same_name((#[trigger] fields(headers@)[k]).0, name@),
        decreases headers@.len() - i,
    {
        if same_ignoring_case(headers[i].name.as_str(), name) {
            assert(same_name(fields(headers@)[i as int].0, name@));
            return true;
        }
        i = i + 1;
    }
    false
}

/// The field has another name.
pub open spec fn other_than(name: Seq<char>) -> spec_fn((Seq<char>, Seq<u8>)) -> bool {
    |field: (Seq<char>, Seq<u8>)| !same_name(field.0, name)
}

/// The fields that have another name.
pub open spec fn without(fields: Seq<(Seq<char>, Seq<u8>)>, name: Seq<char>) -> Seq<
    (Seq<char>, Seq<u8>),
> {
    fields.filter(other_than(name))
}

/// The fields with the given one in place of all others of its name.
pub open spec fn with_field(
    fields: Seq<(Seq<char>, Seq<u8>)>,
    name: Seq<char>,
    value: Seq<u8>,
) -> Seq<(Seq<char>, Seq<u8>)> {
    without(fields, name).push((name, value))
}

/// A copy of the fields that have another name.
pub fn headers_without(headers: &Vec<Header>, name: &str) -> (kept: Vec<Header>)
    ensures
        fields(kept@) == without(fields(headers@), name@),
{
    let ghost all = fields(headers@);
    let mut kept: Vec<Header> = Vec::new();
    let mut i: usize = 0;
    proof {
        reveal(Seq::filter);
        assert(fields(kept@) =~= without(all.take(0), name@));
    }
    while i < headers.len()
        invariant
            i <= headers@.len(),
            all == fields(headers@),
            fields(kept@) == without(all.take(i as int), name@),
        decreases headers@.len() - i,
    {
        let ghost before = kept@;
        let ghost seen = all.take(i as int);
        proof {
            assert(all.take(i + 1) =~= seen.push(all[i as int]));
            assert(seen.push(all[i as int]).drop_last() =~= seen);
            reveal(Seq::filter);
        }
        if !same_ignoring_case(headers[i].name.as_str(), name) {
            let copy = Header { name: headers[i].name.clone(), value: headers[i].value.clone() };
            assert(copy.value@ =~= headers@[i as int].value@);
            kept.push(copy);
            assert(fields(kept@) =~= fields(before).push(all[i as int]));
        }
        i = i + 1;
    }
    assert(all.take(i as int) =~= all);
    kept
}

/// Removes every field that has the name.
pub fn remove_header(headers: &mut Vec<Header>, name: &str)
    ensures
        fields(final(headers)@) == without(fields(old(headers)@), name@),
{
    let kept = headers_without(headers, name);
    *headers = kept;
}

/// Puts the field in place of all others of its name.
pub fn set_header(headers: &mut Vec<Header>, name: &str, value: Vec<u8>)
    ensures
        fields(final(headers)@) == with_field(fields(old(headers)@), name@, value@),
{
    remove_header(headers, name);
    push_header(headers, name, value);
}

/// Adds the field to those that are there.
pub fn push_header(headers: &mut Vec<Header>, name: &str, value: Vec<u8>)
    ensures
        fields(final(headers)@) == fields(old(headers)@).push((name@, value@)),
{
    let ghost before = headers@;
    headers.push(Header { name: name.to_owned(), value });
    assert(fields(headers@) =~= fields(before).push((name@, value@)));
}

/// Puts every field of `headers` behind those of `list`, without those that have the name.
pub fn append_without(list: &mut Vec<Header>, headers: &Vec<Header>, name: &str)
    ensures
        fields(final(list)@) == fields(old(list)@) + without(fields(headers@), name@),
{
    let mut kept = headers_without(headers, name);
    let ghost before = list@;
    let ghost rest = kept@;
    list.append(&mut kept);
    assert(fields(list@) =~= fields(before) + fields(rest));
}

// ----- laws -----

/// The values of all fields that have the name, in order.
pub open spec fn values_of(fields: Seq<(Seq<char>, Seq<u8>)>, name: Seq<char>) -> Seq<Seq<u8>>
    decreases fields.len(),
{
    if fields.len() == 0 {
        Seq::empty()
    } else {
        let rest = values_of(fields.drop_last(), name);
        if same_name(fields.last().0, name) {
            rest.push(fields.last().1)
        } else {
            rest
        }
    }
}

/// The values in two lists in a row are those of the one, then those of the other.
pub proof fn lemma_values_concat(
    a: Seq<(Seq<char>, Seq<u8>)>,
    b: Seq<(Seq<char>, Seq<u8>)>,
    name: Seq<char>,
)
    ensures
        values_of(a + b, name) == values_of(a, name) + values_of(b, name),
    decreases b.len(),
{
    if b.len() == 0 {
        assert(a + b =~= a);
    } else {
        assert((a + b).drop_last() =~= a + b.drop_last());
        lemma_values_concat(a, b.drop_last(), name);
    }
    assert(values_of(a + b, name) =~= values_of(a, name) + values_of(b, name));
}

/// Removing the fields of one name leaves no value of it, and all values of every other.
pub proof fn lemma_values_without(
    fields: Seq<(Seq<char>, Seq<u8>)>,
    name: Seq<char>,
    other: Seq<char>,
)
    ensures
        values_of(without(fields, name), other) == (if same_name(other, name) {
            Seq::<Seq<u8>>::empty()
        } else {
            values_of(fields, other)
        }),
    decreases fields.len(),
{
    reveal(Seq::filter);
    if fields.len() > 0 {
        let front = fields.drop_last();
        lemma_values_without(front, name, other);
        if same_name(other, name) {
            lemma_same_name(fields.last().0, other, name);
        } else if same_name(fields.last().0, name) && same_name(fields.last().0, other) {
            lemma_same_name(other, fields.last().0, name);
            lemma_same_name(other, fields.last().0, other);
        }
        if !same_name(fields.last().0, name) {
            let kept = without(front, name);
            assert(kept.push(fields.last()).drop_last() =~= kept);
        }
    }
}

proof fn lemma_first_value_without(
    fields: Seq<(Seq<char>, Seq<u8>)>,
    name: Seq<char>,
    other: Seq<char>,
)
    ensures
        first_value(without(fields, name), other, 0) == (if same_name(other, name) {
            None
        } else {
            first_value(fields, other, 0)
        }),
        forall|i: int|
            0 <= i < without(fields, name).len() ==> !same_name(
                (#[trigger] without(fields, name)[i]).0,
                name,
            ),
    decreases fields.len(),
{
    reveal(Seq::filter);
    if fields.len() > 0 {
        let front = fields.drop_last();
        lemma_first_value_without(front, name, other);
        if same_name(other, name) {
            lemma_same_name(fields.last().0, other, name);
        } else if same_name(fields.last().0, name) && same_name(fields.last().0, other) {
            lemma_same_name(other, fields.last().0, name);
            lemma_same_name(other, fields.last().0, other);
        }
        lemma_first_value_push(front, fields.last(), other, 0);
        assert(front.push(fields.last()) =~= fields);
        lemma_first_value_push(without(front, name), fields.last(), other, 0);
    }
}

proof fn lemma_first_value_push(
    front: Seq<(Seq<char>, Seq<u8>)>,
    last: (Seq<char>, Seq<u8>),
    name: Seq<char>,
    from: int,
)
    requires
        0 <= from <= front.len(),
    ensures
        first_value(front.push(last), name, from) == (match first_value(front, name, from) {
            Some(value) => Some(value),
            None => if same_name(last.0, name) {
                Some(last.1)
            } else {
                None
            },
        }),
    decreases front.len() - from,
{
    if from < front.len() {
        lemma_first_value_push(front, last, name, from + 1);
    } else {
        assert(first_value(front.push(last), name, from + 1) is None);
    }
}

/// A removed field is gone, and the fields of other names are as they were.
pub proof fn lemma_removed(
    fields: Seq<(Seq<char>, Seq<u8>)>,
    name: Seq<char>,
    other: Seq<char>,
)
    ensures
        !has_field(without(fields, name), name),
        first_value(without(fields, name), name, 0) is None,
        !same_name(other, name) ==> first_value(without(fields, name), other, 0) == first_value(
            fields,
            other,
            0,
        ),
{
    lemma_first_value_without(fields, name, other);
    lemma_first_value_without(fields, name, name);
}

/// A field that was set has the value that was set, and the fields of other names are as they were.
pub proof fn lemma_set(
    fields: Seq<(Seq<char>, Seq<u8>)>,
    name: Seq<char>,
    value: Seq<u8>,
    other: Seq<char>,
)
    ensures
        first_value(with_field(fields, name, value), name, 0) == Some(value),
        !same_name(other, name) ==> first_value(with_field(fields, name, value), other, 0)
            == first_value(fields, other, 0),
{
    if same_name(name, other) {
        lemma_same_name(other, name, other);
    }
    lemma_removed(fields, name, other);
    lemma_first_value_push(without(fields, name), (name, value), name, 0);
    lemma_first_value_push(without(fields, name), (name, value), other, 0);
}

/// The values of a name: none in an empty list, and one more, at the end, for each field that has
/// the name in whatever case.
pub proof fn lemma_values_push(
    fields: Seq<(Seq<char>, Seq<u8>)>,
    field: (Seq<char>, Seq<u8>),
    name: Seq<char>,
)
    ensures
        values_of(Seq::<(Seq<char>, Seq<u8>)>::empty(), name) == Seq::<Seq<u8>>::empty(),
        values_of(fields.push(field), name) == (if eq_ignore_ascii_case(field.0, name) {
            values_of(fields, name).push(field.1)
        } else {
            values_of(fields, name)
        }),
{
    assert(fields.push(field).drop_last() =~= fields);
}

/// The first value of a name is the first of its values, and a field has the name exactly where
/// there is a value.
pub proof fn lemma_first_of_values(fields: Seq<(Seq<char>, Seq<u8>)>, name: Seq<char>)
    ensures
        first_value(fields, name, 0) == (if values_of(fields, name).len() == 0 {
            None
        } else {
            Some(values_of(fields, name)[0])
        }),
        has_field(fields, name) <==> values_of(fields, name).len() > 0,
    decreases fields.len(),
{
    if fields.len() > 0 {
        let front = fields.drop_last();
        lemma_first_of_values(front, name);
        lemma_first_value_push(front, fields.last(), name, 0);
        assert(front.push(fields.last()) =~= fields);
        assert(fields[fields.len() - 1] == fields.last());
        if has_field(front, name) {
            let i = choose|i: int| 0 <= i < front.len() && same_name((#[trigger] front[i]).0, name);
            assert(fields[i] == front[i]);
        }
        if has_field(fields, name) && !same_name(fields.last().0, name) {
            let i = choose|i: int|
                0 <= i < fields.len() && same_name((#[trigger] fields[i]).0, name);
            assert(front[i] == fields[i]);
        }
    }
}

/// The character is printable ASCII or a tab.
pub open spec fn is_plain_char(c: char) -> bool {
    ' ' <= c <= '~' || c == '\t'
}

/// A value is read as the text that was written, where the text is plain ASCII; and a value that is
/// read as a text holds just the characters of that text.
pub proof fn lemma_text_reads_back(text: Seq<char>, value: Seq<u8>)
    ensures
        (forall|i: int| 0 <= i < text.len() ==> is_plain_char(#[trigger] text[i])) ==> text_of(
            encode_utf8(text),
        ) == Some(text),
        text_of(value) matches Some(t) ==> t.len() == value.len() && forall|i: int|
            0 <= i < t.len() ==> is_plain_char(#[trigger] t[i]) && t[i] as int == value[i] as int,
        text_of(value) is None ==> exists|i: int|
            0 <= i < value.len() && !(32 <= #[trigger] value[i] <= 126 || value[i] == 9),
{
    if forall|i: int| 0 <= i < text.len() ==> is_plain_char(#[trigger] text[i]) {
        assert(is_ascii_chars(text)) by {
            assert forall|i: int| 0 <= i < text.len() implies '\0' <= #[trigger] text[i]
                <= '\u{7f}' by {
                assert(is_plain_char(text[i]));
            }
        }
        is_ascii_chars_encode_utf8(text);
        let bytes = encode_utf8(text);
        assert forall|i: int| 0 <= i < bytes.len() implies is_visible(#[trigger] bytes[i]) by {
            assert(is_plain_char(text[i]));
            assert(bytes[i] == text[i] as u8);
        }
        assert(text_of(bytes)->0 =~= text) by {
            assert forall|i: int| 0 <= i < text.len() implies (text_of(bytes)->0)[i]
                == #[trigger] text[i] by {
                assert(is_plain_char(text[i]));
                assert(bytes[i] == text[i] as u8);
            }
        }
    }
    if text_of(value) is Some {
        let t = text_of(value)->0;
        assert forall|i: int| 0 <= i < t.len() implies is_plain_char(#[trigger] t[i]) && t[i] as int
            == value[i] as int by {
            assert(is_visible(value[i]));
        }
    }
}

/// A text that was set is read back, and is read by no other name.
pub proof fn lemma_header_reads_back(
    fields: Seq<(Seq<char>, Seq<u8>)>,
    name: Seq<char>,
    text: Seq<char>,
    other: Seq<char>,
)
    requires
        forall|i: int| 0 <= i < text.len() ==> is_plain_char(#[trigger] text[i]),
    ensures
        header_text(with_field(fields, name, encode_utf8(text)), name) == Some(text),
        header_text(without(fields, name), name) is None,
        !eq_ignore_ascii_case(other, name) ==> header_text(
            with_field(fields, name, encode_utf8(text)),
            other,
        ) == header_text(fields, other),
{
    lemma_set(fields, name, encode_utf8(text), other);
    lemma_removed(fields, name, other);
    lemma_text_reads_back(text, encode_utf8(text));
}

} // verus!
