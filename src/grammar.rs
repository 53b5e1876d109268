//! The grammar as spec functions over the characters not yet consumed. Each parser's
//! outcome, the value it builds or the error it meets, comes with the number of characters
//! it consumes.
use crate::error::ParseError;
use crate::value::Json;
use vstd::prelude::*;

verus! {

/// What a parser yields on the input that remains: what it built or the error, each with how
/// many characters it consumed.
pub type Outcome<T> = Result<(T, nat), (ParseError, nat)>;

/// What a parser of values yields.
pub type Parsed = Outcome<Json>;

/// `c` is an ASCII decimal digit.
pub open spec fn is_digit(c: char) -> bool {
    '0' as u32 <= c as u32 <= '9' as u32
}

/// The numeric value of an ASCII digit.
pub open spec fn digit_value(c: char) -> int {
    c as u32 - '0' as u32
}

/// `c` has Unicode's `White_Space` property.
pub open spec fn is_white_space(c: char) -> bool {
    let u = c as u32;
    ||| 0x09 <= u <= 0x0d
    ||| u == 0x20
    ||| u == 0x85
    ||| u == 0xa0
    ||| u == 0x1680
    ||| 0x2000 <= u <= 0x200a
    ||| u == 0x2028
    ||| u == 0x2029
    ||| u == 0x202f
    ||| u == 0x205f
    ||| u == 0x3000
}

/// `s` with every white-space character removed, the others kept in order.
pub open spec fn strip_ws(s: Seq<char>) -> Seq<char>
    decreases s.len(),
{
    if s.len() == 0 {
        Seq::empty()
    } else if is_white_space(s.last()) {
        strip_ws(s.drop_last())
    } else {
        strip_ws(s.drop_last()).push(s.last())
    }
}

/// How many characters of `s` come before the first `stop` (all of them if none is `stop`).
pub open spec fn len_before(s: Seq<char>, stop: char) -> nat
    decreases s.len(),
{
    if s.len() > 0 && s[0] != stop {
        1 + len_before(s.drop_first(), stop)
    } else {
        0
    }
}

/// The length of the run of digits that starts `s`.
pub open spec fn digit_run(s: Seq<char>) -> nat
    decreases s.len(),
{
    if s.len() > 0 && is_digit(s[0]) {
        1 + digit_run(s.drop_first())
    } else {
        0
    }
}

/// The number that a sequence of decimal digits writes, most significant first.
pub open spec fn digits_value(d: Seq<char>) -> int
    decreases d.len(),
{
    if d.len() == 0 {
        0
    } else {
        digits_value(d.drop_last()) * 10 + digit_value(d.last())
    }
}

/// The index of the first entry whose key is `k`, if there is one.
pub open spec fn key_index(entries: Seq<(Seq<char>, Json)>, k: Seq<char>) -> Option<int> {
    if exists|i: int| 0 <= i < entries.len() && entries[i].0 == k {
        Some(
            choose|i: int|
                0 <= i < entries.len() && entries[i].0 == k && forall|j: int|
                    0 <= j < i ==> entries[j].0 != k,
        )
    } else {
        None
    }
}

/// Inserts `(k, v)`: in place of the entry of key `k` if there is one, else at the end.
pub open spec fn put(entries: Seq<(Seq<char>, Json)>, k: Seq<char>, v: Json) -> Seq<
    (Seq<char>, Json),
> {
    match key_index(entries, k) {
        Some(i) => entries.update(i, (k, v)),
        None => entries.push((k, v)),
    }
}

/// The value that `entries` gives to key `k`.
pub open spec fn lookup(entries: Seq<(Seq<char>, Json)>, k: Seq<char>) -> Option<Json> {
    match key_index(entries, k) {
        Some(i) => Some(entries[i].1),
        None => None,
    }
}

/// No two entries share a key.
pub open spec fn keys_distinct(entries: Seq<(Seq<char>, Json)>) -> bool {
    forall|i: int, j: int|
        0 <= i < entries.len() && 0 <= j < entries.len() && i != j ==> entries[i].0
            != entries[j].0
}

/// `r` with `by` more characters counted as consumed.
pub open spec fn shifted<T>(r: Outcome<T>, by: nat) -> Outcome<T> {
    match r {
        Ok((v, n)) => Ok((v, n + by)),
        Err((e, n)) => Err((e, n + by)),
    }
}

/// Matching one expected character, which fails without consuming anything.
pub open spec fn match_spec(s: Seq<char>, c: char) -> Result<(), ParseError> {
    if s.len() > 0 && s[0] == c {
        Ok(())
    } else {
        Err(ParseError::ExpectedChar(c))
    }
}

/// A string: `"`, the characters up to the next `"`, then that `"`. Yields the text between.
pub open spec fn string_body(s: Seq<char>) -> Outcome<Seq<char>> {
    if !(s.len() > 0 && s[0] == '"') {
        Err((ParseError::ExpectedChar('"'), 0))
    } else {
        let n = len_before(s.drop_first(), '"');
        if n + 1 < s.len() && s[n + 1 as int] == '"' {
            Ok((s.subrange(1, n + 1 as int), n + 2))
        } else {
            Err((ParseError::ExpectedChar('"'), n + 1))
        }
    }
}

/// A string value: the text between the quotes.
pub open spec fn string_spec(s: Seq<char>) -> Parsed {
    match string_body(s) {
        Ok((text, n)) => Ok((Json::Str(text), n)),
        Err(f) => Err(f),
    }
}

/// A number: the longest run of digits, consumed whole, which must fit in an `i64`.
pub open spec fn number_spec(s: Seq<char>) -> Parsed {
    let n = digit_run(s);
    let v = digits_value(s.take(n as int));
    if v <= i64::MAX {
        Ok((Json::Number(v), n))
    } else {
        Err((ParseError::NumericOverflow, n))
    }
}

/// A bare literal: every character up to the next comma, consumed whatever it spells, which
/// must spell `true` or `false`.
pub open spec fn literal_spec(s: Seq<char>) -> Parsed {
    let n = len_before(s, ',');
    let token = s.take(n as int);
    if token == seq!['t', 'r', 'u', 'e'] {
        Ok((Json::True, n))
    } else if token == seq!['f', 'a', 'l', 's', 'e'] {
        Ok((Json::False, n))
    } else {
        Err((ParseError::InvalidLiteral, n))
    }
}

/// A value, chosen by its first character, which the choice itself does not consume.
pub open spec fn value_spec(s: Seq<char>) -> Parsed
    decreases s.len(), 1nat,
{
    if s.len() > 0 && s[0] == '{' {
        object_spec(s)
    } else if s.len() > 0 && s[0] == '"' {
        string_spec(s)
    } else if s.len() > 0 && s[0] == '[' {
        array_spec(s)
    } else if s.len() > 0 && is_digit(s[0]) {
        number_spec(s)
    } else {
        literal_spec(s)
    }
}

/// An object: `{` then `}`, or `{` then entries separated by commas. No `}` is required
/// after the last entry.
pub open spec fn object_spec(s: Seq<char>) -> Parsed
    decreases s.len(), 0nat,
{
    if !(s.len() > 0 && s[0] == '{') {
        Err((ParseError::ExpectedChar('{'), 0))
    } else if s.len() > 1 && s[1] == '}' {
        Ok((Json::Object(Seq::empty()), 2))
    } else {
        match shifted(members_spec(s.drop_first(), Seq::empty()), 1) {
            Ok((entries, n)) => Ok((Json::Object(entries), n)),
            Err(f) => Err(f),
        }
    }
}

/// Entries `key:value` separated by commas, each put into `acc`.
pub open spec fn members_spec(s: Seq<char>, acc: Seq<(Seq<char>, Json)>) -> Outcome<
    Seq<(Seq<char>, Json)>,
>
    decreases s.len(), 0nat,
{
    match string_body(s) {
        Err(f) => Err(f),
        Ok((key, k)) => if !(k < s.len() && s[k as int] == ':') {
            Err((ParseError::ExpectedChar(':'), k))
        } else {
            match value_spec(s.skip(k + 1 as int)) {
                Err(f) => shifted(Err(f), k + 1),
                Ok((v, n)) => {
                    let next = put(acc, key, v);
                    let j = k + 1 + n;
                    if j < s.len() && s[j as int] == ',' {
                        shifted(members_spec(s.skip(j + 1 as int), next), j + 1)
                    } else {
                        Ok((next, j))
                    }
                },
            }
        },
    }
}

/// An array: `[` then `]`, or `[`, values separated by commas, and `]`.
pub open spec fn array_spec(s: Seq<char>) -> Parsed
    decreases s.len(), 0nat,
{
    if !(s.len() > 0 && s[0] == '[') {
        Err((ParseError::ExpectedChar('['), 0))
    } else if s.len() > 1 && s[1] == ']' {
        Ok((Json::Array(Seq::empty()), 2))
    } else {
        match shifted(elements_spec(s.drop_first(), Seq::empty()), 1) {
            Ok((items, n)) => if n < s.len() && s[n as int] == ']' {
                Ok((Json::Array(items), n + 1))
            } else {
                Err((ParseError::ExpectedChar(']'), n))
            },
            Err(f) => Err(f),
        }
    }
}

/// Values separated by commas, each appended to `acc`.
pub open spec fn elements_spec(s: Seq<char>, acc: Seq<Json>) -> Outcome<Seq<Json>>
    decreases s.len(), 2nat,
{
    match value_spec(s) {
        Err(f) => Err(f),
        Ok((v, n)) => {
            let next = acc.push(v);
            if n < s.len() && s[n as int] == ',' {
                shifted(elements_spec(s.skip(n + 1 as int), next), n + 1)
            } else {
                Ok((next, n))
            }
        },
    }
}

/// The whole input: white space removed, then an object. What follows the object is ignored.
pub open spec fn parse_spec(input: Seq<char>) -> Result<Json, ParseError> {
    match object_spec(strip_ws(input)) {
        Ok((v, _)) => Ok(v),
        Err((e, _)) => Err(e),
    }
}

} // verus!

verus! {

/// `len_before` counts exactly the characters before the first `stop`.
pub proof fn lemma_len_before(s: Seq<char>, stop: char)
    ensures
        len_before(s, stop) <= s.len(),
        forall|i: int| 0 <= i < len_before(s, stop) ==> s[i] != stop,
        len_before(s, stop) < s.len() ==> s[len_before(s, stop) as int] == stop,
    decreases s.len(),
{
    if s.len() > 0 && s[0] != stop {
        let t = s.drop_first();
        lemma_len_before(t, stop);
        assert forall|i: int| 0 <= i < len_before(s, stop) implies s[i] != stop by {
            if i > 0 {
                assert(s[i] == t[i - 1]);
            }
        }
    }
}

/// `digit_run` counts exactly the leading digits.
pub proof fn lemma_digit_run(s: Seq<char>)
    ensures
        digit_run(s) <= s.len(),
        forall|i: int| 0 <= i < digit_run(s) ==> is_digit(s[i]),
        digit_run(s) < s.len() ==> !is_digit(s[digit_run(s) as int]),
    decreases s.len(),
{
    if s.len() > 0 && is_digit(s[0]) {
        let t = s.drop_first();
        lemma_digit_run(t);
        assert forall|i: int| 0 <= i < digit_run(s) implies is_digit(s[i]) by {
            if i > 0 {
                assert(s[i] == t[i - 1]);
            }
        }
    }
}

/// The first entry with key `k` is the one `key_index` names.
pub proof fn lemma_key_index_first(entries: Seq<(Seq<char>, Json)>, k: Seq<char>, i: int)
    requires
        0 <= i < entries.len(),
        entries[i].0 == k,
        forall|j: int| 0 <= j < i ==> entries[j].0 != k,
    ensures
        key_index(entries, k) == Some(i),
{
    let c = choose|c: int|
        0 <= c < entries.len() && entries[c].0 == k && forall|j: int|
            0 <= j < c ==> entries[j].0 != k;
    assert(c == i) by {
        if c < i {
            assert(entries[c].0 != k);
        }
        if c > i {
            assert(entries[i].0 != k);
        }
    }
}

} // verus!
