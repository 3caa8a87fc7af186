use crate::toon::{
    bool_text, decimal, escape_string, escaped, line, number_text, push_decimal, push_number, quoted,
    render, ToonWriter,
};
use crate::value::{is_finite, is_non_finite, JsonValue};
use vstd::prelude::*;
use vstd::string::*;
use vstd::utf8::{char_is_scalar, encode_utf8};

verus! {

/// The key of a child: the segment alone at the root, else joined to the
/// parent's key with a `.`.
pub open spec fn child_key(prefix: Seq<char>, segment: Seq<char>) -> Seq<char> {
    if prefix.len() == 0 {
        segment
    } else {
        prefix + seq!['.'] + segment
    }
}

/// The records of `v` under the key `prefix`, in depth-first order: one per
/// leaf, with an empty array or object written as the quoted text `[]` or `{}`.
pub open spec fn records(prefix: Seq<char>, v: JsonValue) -> Seq<(Seq<char>, Seq<char>)>
    decreases v,
{
    match v {
        JsonValue::Null => seq![(prefix, "null"@)],
        JsonValue::Bool(b) => seq![(prefix, bool_text(b))],
        JsonValue::Number(n) => seq![(prefix, number_text(n))],
        JsonValue::String(s) => seq![(prefix, quoted(s@))],
        JsonValue::Array(items) => {
            if items@.len() == 0 {
                seq![(prefix, quoted("[]"@))]
            } else {
                element_records(prefix, items@)
            }
        },
        JsonValue::Object(members) => {
            if members@.len() == 0 {
                seq![(prefix, quoted("{}"@))]
            } else {
                member_records(prefix, members@)
            }
        },
    }
}

/// The records of array elements, each keyed by its index under `prefix`.
pub open spec fn element_records(prefix: Seq<char>, items: Seq<JsonValue>) -> Seq<
    (Seq<char>, Seq<char>),
>
    decreases items,
{
    if items.len() == 0 {
        Seq::empty()
    } else {
        let i = items.len() - 1;
        element_records(prefix, items.drop_last()) + records(
            child_key(prefix, decimal(i as nat)),
            items[i],
        )
    }
}

/// The records of object members, each keyed by its name under `prefix`.
pub open spec fn member_records(prefix: Seq<char>, members: Seq<(String, JsonValue)>) -> Seq<
    (Seq<char>, Seq<char>),
>
    decreases members,
{
    if members.len() == 0 {
        Seq::empty()
    } else {
        let i = members.len() - 1;
        member_records(prefix, members.drop_last()) + records(
            child_key(prefix, members[i].0@),
            members[i].1,
        )
    }
}

/// The text of the first number, in depth-first order, that is an infinity
/// or a NaN; `None` where every number is finite.
pub open spec fn first_non_finite(v: JsonValue) -> Option<Seq<char>>
    decreases v,
{
    match v {
        JsonValue::Number(n) => {
            if is_finite(n.bits) {
                None
            } else {
                Some(n.text@)
            }
        },
        JsonValue::Array(items) => elements_first_non_finite(items@),
        JsonValue::Object(members) => members_first_non_finite(members@),
        _ => None,
    }
}

/// `first_non_finite` over a run of array elements.
pub open spec fn elements_first_non_finite(items: Seq<JsonValue>) -> Option<Seq<char>>
    decreases items,
{
    if items.len() == 0 {
        None
    } else {
        match elements_first_non_finite(items.drop_last()) {
            Some(t) => Some(t),
            None => first_non_finite(items[items.len() - 1]),
        }
    }
}

/// `first_non_finite` over a run of object members.
pub open spec fn members_first_non_finite(members: Seq<(String, JsonValue)>) -> Option<Seq<char>>
    decreases members,
{
    if members.len() == 0 {
        None
    } else {
        match members_first_non_finite(members.drop_last()) {
            Some(t) => Some(t),
            None => first_non_finite(members[members.len() - 1].1),
        }
    }
}

/// The records of the leaves of `v` that come before its first non-finite
/// number in depth-first order: what is written before conversion stops.
pub open spec fn records_before_failure(prefix: Seq<char>, v: JsonValue) -> Seq<
    (Seq<char>, Seq<char>),
>
    decreases v,
{
    match v {
        JsonValue::Array(items) => elements_before_failure(prefix, items@),
        JsonValue::Object(members) => members_before_failure(prefix, members@),
        _ => Seq::empty(),
    }
}

/// `records_before_failure` over a run of array elements.
pub open spec fn elements_before_failure(prefix: Seq<char>, items: Seq<JsonValue>) -> Seq<
    (Seq<char>, Seq<char>),
>
    decreases items,
{
    if items.len() == 0 {
        Seq::empty()
    } else if elements_first_non_finite(items.drop_last()) is Some {
        elements_before_failure(prefix, items.drop_last())
    } else {
        let i = items.len() - 1;
        element_records(prefix, items.drop_last()) + records_before_failure(
            child_key(prefix, decimal(i as nat)),
            items[i],
        )
    }
}

/// `records_before_failure` over a run of object members.
pub open spec fn members_before_failure(
    prefix: Seq<char>,
    members: Seq<(String, JsonValue)>,
) -> Seq<(Seq<char>, Seq<char>)>
    decreases members,
{
    if members.len() == 0 {
        Seq::empty()
    } else if members_first_non_finite(members.drop_last()) is Some {
        members_before_failure(prefix, members.drop_last())
    } else {
        let i = members.len() - 1;
        member_records(prefix, members.drop_last()) + records_before_failure(
            child_key(prefix, members[i].0@),
            members[i].1,
        )
    }
}

/// A non-finite number found in a run of elements is the first one of every
/// longer run.
proof fn lemma_elements_error_kept(prefix: Seq<char>, items: Seq<JsonValue>, j: int)
    requires
        0 <= j <= items.len(),
        elements_first_non_finite(items.take(j)) is Some,
    ensures
        elements_first_non_finite(items) == elements_first_non_finite(items.take(j)),
        elements_before_failure(prefix, items) == elements_before_failure(prefix, items.take(j)),
    decreases items.len() - j,
{
    if j < items.len() {
        assert(items.take(j + 1).drop_last() =~= items.take(j));
        lemma_elements_error_kept(prefix, items, j + 1);
    } else {
        assert(items.take(j) =~= items);
    }
}

/// A non-finite number found in a run of members is the first one of every
/// longer run.
proof fn lemma_members_error_kept(
    prefix: Seq<char>,
    members: Seq<(String, JsonValue)>,
    j: int,
)
    requires
        0 <= j <= members.len(),
        members_first_non_finite(members.take(j)) is Some,
    ensures
        members_first_non_finite(members) == members_first_non_finite(members.take(j)),
        members_before_failure(prefix, members) == members_before_failure(prefix, members.take(j)),
    decreases members.len() - j,
{
    if j < members.len() {
        assert(members.take(j + 1).drop_last() =~= members.take(j));
        lemma_members_error_kept(prefix, members, j + 1);
    } else {
        assert(members.take(j) =~= members);
    }
}

/// A number that cannot be written: an infinity or a NaN, with its text.
pub struct ConversionError {
    pub value: String,
}

/// What converting `v` gives: the text of its records, or the first number
/// that cannot be written.
pub open spec fn conversion(v: JsonValue) -> Result<Seq<char>, Seq<char>> {
    match first_non_finite(v) {
        Some(t) => Err(t),
        None => Ok(render(records(Seq::empty(), v))),
    }
}

/// `r` is the outcome that `conversion(v)` describes.
pub open spec fn converts_to(v: JsonValue, r: Result<String, ConversionError>) -> bool {
    match r {
        Ok(text) => conversion(v) == Ok::<Seq<char>, Seq<char>>(text@),
        Err(e) => conversion(v) == Err::<Seq<char>, Seq<char>>(e.value@),
    }
}

/// The number of leaves of `v`: scalars, empty arrays and empty objects.
pub open spec fn leaf_count(v: JsonValue) -> nat
    decreases v,
{
    match v {
        JsonValue::Array(items) => {
            if items@.len() == 0 {
                1
            } else {
                elements_leaf_count(items@)
            }
        },
        JsonValue::Object(members) => {
            if members@.len() == 0 {
                1
            } else {
                members_leaf_count(members@)
            }
        },
        _ => 1,
    }
}

/// `leaf_count` summed over array elements.
pub open spec fn elements_leaf_count(items: Seq<JsonValue>) -> nat
    decreases items,
{
    if items.len() == 0 {
        0
    } else {
        elements_leaf_count(items.drop_last()) + leaf_count(items[items.len() - 1])
    }
}

/// `leaf_count` summed over object members.
pub open spec fn members_leaf_count(members: Seq<(String, JsonValue)>) -> nat
    decreases members,
{
    if members.len() == 0 {
        0
    } else {
        members_leaf_count(members.drop_last()) + leaf_count(members[members.len() - 1].1)
    }
}

/// One record is written per leaf, whatever the key above it.
pub proof fn lemma_one_record_per_leaf(prefix: Seq<char>, v: JsonValue)
    ensures
        records(prefix, v).len() == leaf_count(v),
    decreases v,
{
    match v {
        JsonValue::Array(items) => {
            if items@.len() != 0 {
                lemma_elements_one_record_per_leaf(prefix, items@);
            }
        },
        JsonValue::Object(members) => {
            if members@.len() != 0 {
                lemma_members_one_record_per_leaf(prefix, members@);
            }
        },
        _ => {},
    }
}

/// `lemma_one_record_per_leaf` over array elements.
pub proof fn lemma_elements_one_record_per_leaf(prefix: Seq<char>, items: Seq<JsonValue>)
    ensures
        element_records(prefix, items).len() == elements_leaf_count(items),
    decreases items,
{
    if items.len() != 0 {
        let i = items.len() - 1;
        lemma_elements_one_record_per_leaf(prefix, items.drop_last());
        lemma_one_record_per_leaf(child_key(prefix, decimal(i as nat)), items[i]);
    }
}

/// `lemma_one_record_per_leaf` over object members.
pub proof fn lemma_members_one_record_per_leaf(
    prefix: Seq<char>,
    members: Seq<(String, JsonValue)>,
)
    ensures
        member_records(prefix, members).len() == members_leaf_count(members),
    decreases members,
{
    if members.len() != 0 {
        let i = members.len() - 1;
        lemma_members_one_record_per_leaf(prefix, members.drop_last());
        lemma_one_record_per_leaf(child_key(prefix, members[i].0@), members[i].1);
    }
}

/// Converting the same value twice gives the same outcome: the same text, or
/// the same offending number.
pub proof fn lemma_conversion_deterministic(
    v: JsonValue,
    first: Result<String, ConversionError>,
    second: Result<String, ConversionError>,
)
    requires
        converts_to(v, first),
        converts_to(v, second),
    ensures
        first is Ok <==> second is Ok,
        (first, second) matches (Ok(a), Ok(b)) ==> a@ == b@,
        (first, second) matches (Err(a), Err(b)) ==> a.value@ == b.value@,
{
}

/// The number of bytes in the UTF-8 form of `s`.
pub open spec fn utf8_bytes(s: Seq<char>) -> nat {
    encode_utf8(s).len()
}

/// The number of bytes in the UTF-8 form of one character.
pub open spec fn char_bytes(c: char) -> nat {
    if c as u32 <= 0x7f {
        1
    } else if c as u32 <= 0x7ff {
        2
    } else if c as u32 <= 0xffff {
        3
    } else {
        4
    }
}

/// The larger of two numbers.
pub open spec fn larger(a: nat, b: nat) -> nat {
    if a >= b {
        a
    } else {
        b
    }
}

/// A bound on the bytes of the records of `v` under `prefix`: for each leaf,
/// its key's length plus what its value and the `=` and newline take at most
/// (a number is allowed at least 25 bytes in all).
pub open spec fn estimate(prefix: Seq<char>, v: JsonValue) -> nat
    decreases v,
{
    match v {
        JsonValue::Null => utf8_bytes(prefix) + 6,
        JsonValue::Bool(_) => utf8_bytes(prefix) + 7,
        JsonValue::Number(n) => utf8_bytes(prefix) + larger(
            25,
            larger(utf8_bytes(n.text@), utf8_bytes(number_text(n))) + 2,
        ),
        JsonValue::String(s) => utf8_bytes(prefix) + utf8_bytes(escaped(s@)) + 4,
        JsonValue::Array(items) => {
            if items@.len() == 0 {
                utf8_bytes(prefix) + 6
            } else {
                element_estimate(prefix, items@)
            }
        },
        JsonValue::Object(members) => {
            if members@.len() == 0 {
                utf8_bytes(prefix) + 6
            } else {
                member_estimate(prefix, members@)
            }
        },
    }
}

/// `estimate` summed over array elements, each under its index key.
pub open spec fn element_estimate(prefix: Seq<char>, items: Seq<JsonValue>) -> nat
    decreases items,
{
    if items.len() == 0 {
        0
    } else {
        let i = items.len() - 1;
        element_estimate(prefix, items.drop_last()) + estimate(
            child_key(prefix, decimal(i as nat)),
            items[i],
        )
    }
}

/// `estimate` summed over object members, each under its name's key.
pub open spec fn member_estimate(prefix: Seq<char>, members: Seq<(String, JsonValue)>) -> nat
    decreases members,
{
    if members.len() == 0 {
        0
    } else {
        let i = members.len() - 1;
        member_estimate(prefix, members.drop_last()) + estimate(
            child_key(prefix, members[i].0@),
            members[i].1,
        )
    }
}

/// `n`, or `usize::MAX` where `n` is larger.
pub open spec fn capped(n: nat) -> usize {
    if n > usize::MAX {
        usize::MAX
    } else {
        n as usize
    }
}

/// UTF-8 lengths add up over concatenation.
pub proof fn lemma_utf8_bytes_concat(a: Seq<char>, b: Seq<char>)
    ensures
        utf8_bytes(a + b) == utf8_bytes(a) + utf8_bytes(b),
    decreases a.len(),
{
    if a.len() == 0 {
        assert(a + b =~= b);
    } else {
        assert((a + b).drop_first() =~= a.drop_first() + b);
        assert((a + b)[0] == a[0]);
        lemma_utf8_bytes_concat(a.drop_first(), b);
    }
}

/// The UTF-8 length of a single character.
pub proof fn lemma_char_bytes(c: char)
    ensures
        utf8_bytes(seq![c]) == char_bytes(c),
{
    char_is_scalar(c);
    assert(seq![c].drop_first() =~= Seq::<char>::empty());
    assert(seq![c][0] == c);
    assert(encode_utf8(Seq::<char>::empty()) =~= Seq::<u8>::empty());
    assert(encode_utf8(seq![c]) =~= vstd::utf8::encode_scalar(c as u32));
}

/// Text of ASCII characters takes one byte per character.
pub proof fn lemma_ascii_bytes(s: Seq<char>)
    requires
        forall|i: int| 0 <= i < s.len() ==> s[i] as u32 <= 0x7f,
    ensures
        utf8_bytes(s) == s.len(),
    decreases s.len(),
{
    if s.len() > 0 {
        char_is_scalar(s[0]);
        lemma_ascii_bytes(s.drop_first());
    }
}

/// The text of records laid end to end is the text of both runs.
pub proof fn lemma_render_concat(a: Seq<(Seq<char>, Seq<char>)>, b: Seq<(Seq<char>, Seq<char>)>)
    ensures
        render(a + b) == render(a) + render(b),
    decreases b.len(),
{
    if b.len() == 0 {
        assert(a + b =~= a);
        assert(render(b) =~= Seq::<char>::empty());
        assert(render(a) + render(b) =~= render(a));
    } else {
        assert((a + b).drop_last() =~= a + b.drop_last());
        assert((a + b).last() == b.last());
        lemma_render_concat(a, b.drop_last());
        assert(render(a + b) =~= render(a) + render(b));
    }
}

/// The bytes of the text of a single record: its key, its value, `=` and a newline.
pub proof fn lemma_single_record_bytes(key: Seq<char>, value: Seq<char>)
    ensures
        utf8_bytes(render(seq![(key, value)])) == utf8_bytes(key) + utf8_bytes(value) + 2,
{
    let rs = seq![(key, value)];
    assert(rs.drop_last() =~= Seq::<(Seq<char>, Seq<char>)>::empty());
    assert(rs.last() == (key, value));
    assert(render(Seq::<(Seq<char>, Seq<char>)>::empty()) =~= Seq::<char>::empty());
    assert(render(rs) =~= line((key, value)));
    lemma_utf8_bytes_concat(key, seq!['=']);
    lemma_utf8_bytes_concat(key + seq!['='], value);
    lemma_utf8_bytes_concat(key + seq!['='] + value, seq!['\n']);
    lemma_char_bytes('=');
    lemma_char_bytes('\n');
}

/// The bytes of `"text"` where the escaped text is given.
proof fn lemma_quoted_bytes(s: Seq<char>)
    ensures
        utf8_bytes(quoted(s)) == utf8_bytes(escaped(s)) + 2,
{
    lemma_utf8_bytes_concat(seq!['"'], escaped(s));
    lemma_utf8_bytes_concat(seq!['"'] + escaped(s), seq!['"']);
    lemma_char_bytes('"');
}

/// The estimate is never below the length in bytes of the text of the records
/// it estimates.
pub proof fn lemma_estimate_bounds_output(prefix: Seq<char>, v: JsonValue)
    ensures
        utf8_bytes(render(records(prefix, v))) <= estimate(prefix, v),
    decreases v,
{
    match v {
        JsonValue::Null => {
            reveal_strlit("null");
            lemma_single_record_bytes(prefix, "null"@);
            lemma_ascii_bytes("null"@);
        },
        JsonValue::Bool(b) => {
            reveal_strlit("true");
            reveal_strlit("false");
            lemma_single_record_bytes(prefix, bool_text(b));
            lemma_ascii_bytes("true"@);
            lemma_ascii_bytes("false"@);
        },
        JsonValue::Number(n) => {
            lemma_single_record_bytes(prefix, number_text(n));
        },
        JsonValue::String(t) => {
            lemma_single_record_bytes(prefix, quoted(t@));
            lemma_quoted_bytes(t@);
        },
        JsonValue::Array(items) => {
            if items@.len() == 0 {
                empty_sentinel_bytes(prefix, "[]"@);
            } else {
                lemma_elements_estimate_bounds(prefix, items@);
            }
        },
        JsonValue::Object(members) => {
            if members@.len() == 0 {
                empty_sentinel_bytes(prefix, "{}"@);
            } else {
                lemma_members_estimate_bounds(prefix, members@);
            }
        },
    }
}

/// The record of an empty array or object takes the key's length and six bytes.
proof fn empty_sentinel_bytes(prefix: Seq<char>, sentinel: Seq<char>)
    requires
        sentinel == "[]"@ || sentinel == "{}"@,
    ensures
        utf8_bytes(render(seq![(prefix, quoted(sentinel))])) == utf8_bytes(prefix) + 6,
{
    reveal_strlit("[]");
    reveal_strlit("{}");
    reveal_with_fuel(escaped, 3);
    assert(sentinel.drop_last().drop_last() =~= Seq::<char>::empty());
    assert(escaped(sentinel) =~= sentinel);
    lemma_ascii_bytes(sentinel);
    lemma_quoted_bytes(sentinel);
    lemma_single_record_bytes(prefix, quoted(sentinel));
}

/// `lemma_estimate_bounds_output` over array elements.
pub proof fn lemma_elements_estimate_bounds(prefix: Seq<char>, items: Seq<JsonValue>)
    ensures
        utf8_bytes(render(element_records(prefix, items))) <= element_estimate(prefix, items),
    decreases items,
{
    if items.len() == 0 {
        assert(render(Seq::<(Seq<char>, Seq<char>)>::empty()) =~= Seq::<char>::empty());
    } else {
        let i = items.len() - 1;
        let key = child_key(prefix, decimal(i as nat));
        lemma_elements_estimate_bounds(prefix, items.drop_last());
        lemma_estimate_bounds_output(key, items[i]);
        lemma_render_concat(element_records(prefix, items.drop_last()), records(key, items[i]));
        lemma_utf8_bytes_concat(
            render(element_records(prefix, items.drop_last())),
            render(records(key, items[i])),
        );
    }
}

/// `lemma_estimate_bounds_output` over object members.
pub proof fn lemma_members_estimate_bounds(
    prefix: Seq<char>,
    members: Seq<(String, JsonValue)>,
)
    ensures
        utf8_bytes(render(member_records(prefix, members))) <= member_estimate(prefix, members),
    decreases members,
{
    if members.len() == 0 {
        assert(render(Seq::<(Seq<char>, Seq<char>)>::empty()) =~= Seq::<char>::empty());
    } else {
        let i = members.len() - 1;
        let key = child_key(prefix, members[i].0@);
        lemma_members_estimate_bounds(prefix, members.drop_last());
        lemma_estimate_bounds_output(key, members[i].1);
        lemma_render_concat(member_records(prefix, members.drop_last()), records(key, members[i].1));
        lemma_utf8_bytes_concat(
            render(member_records(prefix, members.drop_last())),
            render(records(key, members[i].1)),
        );
    }
}

/// The number of bytes in the UTF-8 form of `s` (`usize::MAX` where it is larger).
fn utf8_length(s: &str) -> (r: usize)
    ensures
        r == capped(utf8_bytes(s@)),
{
    let mut total: usize = 0;
    for c in it: s.chars()
        invariant
            it.seq() == s@,
            total == capped(utf8_bytes(s@.take(it.index() as int))),
    {
        let code = c as u32;
        let width: usize = if code <= 0x7f {
            1
        } else if code <= 0x7ff {
            2
        } else if code <= 0xffff {
            3
        } else {
            4
        };
        proof {
            let i = it.index() as int;
            assert(s@.take(i + 1) =~= s@.take(i) + seq![c]);
            lemma_utf8_bytes_concat(s@.take(i), seq![c]);
            lemma_char_bytes(c);
        }
        total = total.saturating_add(width);
    }
    proof {
        assert(s@.take(s@.len() as int) =~= s@);
    }
    total
}

/// The key of array element `i` under `prefix`.
fn index_key(prefix: &str, i: usize) -> (r: String)
    ensures
        r@ == child_key(prefix@, decimal(i as nat)),
{
    let mut key = String::new();
    if !prefix.is_empty() {
        key.append(prefix);
        key.push('.');
    }
    push_decimal(&mut key, i as u64);
    proof {
        assert(key@ =~= child_key(prefix@, decimal(i as nat)));
    }
    key
}

/// The key of the object member `name` under `prefix`.
fn member_key(prefix: &str, name: &str) -> (r: String)
    ensures
        r@ == child_key(prefix@, name@),
{
    let mut key = String::new();
    if !prefix.is_empty() {
        key.append(prefix);
        key.push('.');
    }
    key.append(name);
    proof {
        assert(key@ =~= child_key(prefix@, name@));
    }
    key
}

/// Flattens JSON values into TOON text.
pub struct Converter {
    pub verbose: bool,
}

impl Converter {
    pub fn new(verbose: bool) -> (r: Self)
        ensures
            r.verbose == verbose,
    {
        Converter { verbose }
    }

    /// Converts a JSON value to TOON: one line per leaf, or the first number
    /// that is not finite.
    pub fn convert(&self, value: &JsonValue) -> (r: Result<String, ConversionError>)
        ensures
            converts_to(*value, r),
    {
        let mut writer = ToonWriter::new();
        match self.convert_value(&mut writer, "", value) {
            Ok(()) => {
                proof {
                    reveal_strlit("");
                    assert(""@ =~= Seq::<char>::empty());
                    assert(writer@ =~= records(Seq::empty(), *value));
                }
                Ok(writer.finish())
            },
            Err(e) => Err(e),
        }
    }

    /// A bound on the length in bytes of the text that `convert` gives for
    /// `value`, made without building it (`usize::MAX` where it is larger).
    pub fn estimate_size(&self, value: &JsonValue) -> (r: usize)
        ensures
            r == capped(estimate(Seq::empty(), *value)),
            conversion(*value) matches Ok(text) ==> r >= capped(utf8_bytes(text)),
    {
        proof {
            lemma_estimate_bounds_output(Seq::empty(), *value);
            reveal_strlit("");
            assert(""@ =~= Seq::<char>::empty());
        }
        self.estimate_value_size(value, "")
    }

    fn estimate_value_size(&self, value: &JsonValue, prefix: &str) -> (r: usize)
        ensures
            r == capped(estimate(prefix@, *value)),
        decreases value,
    {
        let key = utf8_length(prefix);
        match value {
            JsonValue::Null => key.saturating_add(6),
            JsonValue::Bool(_) => key.saturating_add(7),
            JsonValue::Number(n) => {
                let text = utf8_length(n.text.as_str());
                let mut rendered = String::new();
                push_number(&mut rendered, n);
                proof {
                    assert(rendered@ =~= number_text(*n));
                }
                let written = utf8_length(rendered.as_str());
                let longer = if text >= written {
                    text
                } else {
                    written
                };
                let value_part = longer.saturating_add(2);
                key.saturating_add(
                    if value_part >= 25 {
                        value_part
                    } else {
                        25
                    },
                )
            },
            JsonValue::String(s) => {
                let escaped_text = escape_string(s.as_str());
                key.saturating_add(utf8_length(escaped_text.as_str())).saturating_add(4)
            },
            JsonValue::Array(items) => {
                if items.len() == 0 {
                    key.saturating_add(6)
                } else {
                    let mut total: usize = 0;
                    let mut i: usize = 0;
                    while i < items.len()
                        invariant
                            i <= items.len(),
                            *value == JsonValue::Array(*items),
                            total == capped(element_estimate(prefix@, items@.take(i as int))),
                        decreases items.len() - i,
                    {
                        let key = index_key(prefix, i);
                        proof {
                            assert(items@.take(i + 1).drop_last() =~= items@.take(i as int));
                            assert(decreases_to!(*value => (*value)->Array_0));
                            assert(decreases_to!(items => items[i as int]));
                        }
                        let part = self.estimate_value_size(&items[i], key.as_str());
                        total = total.saturating_add(part);
                        i = i + 1;
                    }
                    proof {
                        assert(items@.take(i as int) =~= items@);
                    }
                    total
                }
            },
            JsonValue::Object(members) => {
                if members.len() == 0 {
                    key.saturating_add(6)
                } else {
                    let mut total: usize = 0;
                    let mut i: usize = 0;
                    while i < members.len()
                        invariant
                            i <= members.len(),
                            *value == JsonValue::Object(*members),
                            total == capped(member_estimate(prefix@, members@.take(i as int))),
                        decreases members.len() - i,
                    {
                        let member = &members[i];
                        let key = member_key(prefix, member.0.as_str());
                        proof {
                            assert(members@.take(i + 1).drop_last() =~= members@.take(i as int));
                            assert(decreases_to!(*value => (*value)->Object_0));
                            assert(decreases_to!(members => members[i as int]));
                            assert(decreases_to!(members[i as int] => members[i as int].1));
                        }
                        let part = self.estimate_value_size(&member.1, key.as_str());
                        total = total.saturating_add(part);
                        i = i + 1;
                    }
                    proof {
                        assert(members@.take(i as int) =~= members@);
                    }
                    total
                }
            },
        }
    }

    /// Writes the records of `value` under the key `prefix`, stopping at the
    /// first number that is not finite.
    fn convert_value(&self, writer: &mut ToonWriter, prefix: &str, value: &JsonValue) -> (r: Result<
        (),
        ConversionError,
    >)
        requires
            old(writer).wf(),
        ensures
            final(writer).wf(),
            match r {
                Ok(()) => first_non_finite(*value) is None && final(writer)@ == old(writer)@
                    + records(prefix@, *value),
                Err(e) => first_non_finite(*value) == Some(e.value@) && final(writer)@ == old(
                    writer,
                )@ + records_before_failure(prefix@, *value),
            },
        decreases value,
    {
        match value {
            JsonValue::Null => {
                writer.write_null(prefix);
            },
            JsonValue::Bool(b) => {
                writer.write_bool(prefix, *b);
            },
            JsonValue::Number(n) => {
                if is_non_finite(n.bits) {
                    return Err(ConversionError { value: n.text.clone() });
                }
                writer.write_number(prefix, n);
            },
            JsonValue::String(s) => {
                writer.write_string(prefix, s.as_str());
            },
            JsonValue::Array(items) => {
                if items.len() == 0 {
                    writer.write_string(prefix, "[]");
                } else {
                    let mut i: usize = 0;
                    while i < items.len()
                        invariant
                            writer.wf(),
                            i <= items.len(),
                            *value == JsonValue::Array(*items),
                            elements_first_non_finite(items@.take(i as int)) is None,
                            writer@ == old(writer)@ + element_records(
                                prefix@,
                                items@.take(i as int),
                            ),
                        decreases items.len() - i,
                    {
                        let key = index_key(prefix, i);
                        proof {
                            assert(items@.take(i + 1).drop_last() =~= items@.take(i as int));
                        }
                        proof {
                            assert(decreases_to!(*value => (*value)->Array_0));
                            assert(decreases_to!(items => items[i as int]));
                        }
                        match self.convert_value(writer, key.as_str(), &items[i]) {
                            Ok(()) => {},
                            Err(e) => {
                                proof {
                                    assert(items@.take(i + 1)[i as int] == items@[i as int]);
                                    lemma_elements_error_kept(prefix@, items@, i + 1);
                                    assert(first_non_finite(*value) == elements_first_non_finite(items@));
                                }
                                return Err(e);
                            },
                        }
                        proof {
                            assert(writer@ =~= old(writer)@ + element_records(
                                prefix@,
                                items@.take(i + 1),
                            ));
                        }
                        i = i + 1;
                    }
                    proof {
                        assert(items@.take(i as int) =~= items@);
                    }
                }
            },
            JsonValue::Object(members) => {
                if members.len() == 0 {
                    writer.write_string(prefix, "{}");
                } else {
                    let mut i: usize = 0;
                    while i < members.len()
                        invariant
                            writer.wf(),
                            i <= members.len(),
                            *value == JsonValue::Object(*members),
                            members_first_non_finite(members@.take(i as int)) is None,
                            writer@ == old(writer)@ + member_records(
                                prefix@,
                                members@.take(i as int),
                            ),
                        decreases members.len() - i,
                    {
                        let member = &members[i];
                        let key = member_key(prefix, member.0.as_str());
                        proof {
                            assert(members@.take(i + 1).drop_last() =~= members@.take(i as int));
                        }
                        proof {
                            assert(decreases_to!(*value => (*value)->Object_0));
                            assert(decreases_to!(members => members[i as int]));
                            assert(decreases_to!(members[i as int] => members[i as int].1));
                        }
                        match self.convert_value(writer, key.as_str(), &member.1) {
                            Ok(()) => {},
                            Err(e) => {
                                proof {
                                    assert(members@.take(i + 1)[i as int] == members@[i as int]);
                                    lemma_members_error_kept(prefix@, members@, i + 1);
                                    assert(first_non_finite(*value) == members_first_non_finite(members@));
                                }
                                return Err(e);
                            },
                        }
                        proof {
                            assert(writer@ =~= old(writer)@ + member_records(
                                prefix@,
                                members@.take(i + 1),
                            ));
                        }
                        i = i + 1;
                    }
                    proof {
                        assert(members@.take(i as int) =~= members@);
                    }
                }
            },
        }
        proof {
            assert(writer@ =~= old(writer)@ + records(prefix@, *value));
        }
        Ok(())
    }
}

} // verus!
