//! The parsers: each reads from a cursor and agrees with its spec function in `grammar`.
use crate::cursor::Cursor;
use crate::error::ParseError;
use crate::grammar::{
    array_spec, digit_run, digit_value, digits_value, elements_spec, is_digit,
    key_index, lemma_digit_run, lemma_key_index_first, lemma_len_before,
    len_before, literal_spec,
    match_spec, members_spec, number_spec, object_spec, parse_spec, put, shifted, string_body,
    string_spec, strip_ws, value_spec, Parsed,
};
use crate::value::{entries_model, items_model, lemma_array_model, lemma_object_model, Json, Value};
use vstd::prelude::*;

verus! {

/// `r` is the outcome that `expected` describes for the input `before`, and the cursor was
/// left at `after`, just past the characters that `expected` says were consumed.
pub open spec fn agrees(
    r: Result<Value, ParseError>,
    expected: Parsed,
    before: Seq<char>,
    after: Seq<char>,
) -> bool {
    match expected {
        Ok((j, n)) => match r {
            Ok(v) => v.model() == j && n <= before.len() && after == before.skip(n as int),
            Err(_) => false,
        },
        Err((e, n)) => r == Err::<Value, ParseError>(e) && n <= before.len() && after
            == before.skip(n as int),
    }
}

/// Consumes one character if it is `expected`; fails otherwise, consuming nothing.
pub fn match_char(src: &mut Cursor, expected: char) -> (r: Result<(), ParseError>)
    ensures
        r == match_spec(old(src)@, expected),
        r is Ok ==> final(src)@ == old(src)@.drop_first(),
        r is Err ==> final(src)@ == old(src)@,
{
    if src.next_if_eq(expected).is_none() {
        Err(ParseError::ExpectedChar(expected))
    } else {
        Ok(())
    }
}

/// Reads `"`, the text up to the next `"`, and that `"`, and yields the text.
fn read_string(src: &mut Cursor) -> (r: Result<String, ParseError>)
    ensures
        match string_body(old(src)@) {
            Ok((text, n)) => match r {
                Ok(k) => k@ == text && n <= old(src)@.len() && final(src)@ == old(src)@.skip(
                    n as int,
                ),
                Err(_) => false,
            },
            Err((e, n)) => r == Err::<String, ParseError>(e) && n <= old(src)@.len()
                && final(src)@ == old(src)@.skip(n as int),
        },
{
    let ghost s = src@;
    if let Err(e) = match_char(src, '"') {
        assert(src@ =~= s.skip(0));
        return Err(e);
    }
    let ghost t = s.drop_first();
    let mut res = String::new();
    loop
        invariant
            s.len() > 0 && s[0] == '"',
            t == s.drop_first(),
            res@.len() <= t.len(),
            res@ == t.take(res@.len() as int),
            src@ == t.skip(res@.len() as int),
            forall|i: int| 0 <= i < res@.len() ==> t[i] != '"',
        ensures
            src@.len() == 0 || src@[0] == '"',
        decreases src@.len(),
    {
        match src.next_if(|c: char| -> (b: bool) ensures b == (c != '"') { c != '"' }) {
            Some(c) => {
                res.push(c);
                assert(res@ =~= t.take(res@.len() as int));
                assert(src@ =~= t.skip(res@.len() as int));
            },
            None => {
                break;
            },
        }
    }
    proof {
        lemma_len_before(t, '"');
        let m = res@.len() as int;
        assert(m < t.len() ==> src@[0] == t[m]);
        assert(len_before(t, '"') == m);
        assert(res@ =~= s.subrange(1, m + 1));
    }
    if let Err(e) = match_char(src, '"') {
        proof {
            assert(src@ =~= s.skip(res@.len() + 1 as int));
        }
        return Err(e);
    }
    proof {
        assert(src@ =~= s.skip(res@.len() + 2 as int));
    }
    Ok(res)
}

/// Reads `"`, the text up to the next `"`, and that `"`. The text is kept as it stands.
pub fn parse_string(src: &mut Cursor) -> (r: Result<Value, ParseError>)
    ensures
        agrees(r, string_spec(old(src)@), old(src)@, final(src)@),
{
    match read_string(src) {
        Ok(text) => Ok(Value::String(text)),
        Err(e) => Err(e),
    }
}

/// Whether `c` is an ASCII decimal digit.
fn is_ascii_digit(c: char) -> (r: bool)
    ensures
        r == is_digit(c),
{
    let u = c as u32;
    '0' as u32 <= u && u <= '9' as u32
}

/// The digit `c` stands for, as a number.
fn digit_of(c: char) -> (r: i64)
    requires
        is_digit(c),
    ensures
        r == digit_value(c),
{
    (c as u32 - '0' as u32) as i64
}

/// Reads the longest run of ASCII digits, which must start at the next character, as a
/// decimal number. Fails with `NumericOverflow`, after reading the whole run, where the
/// number does not fit in an `i64`.
pub fn parse_number(src: &mut Cursor) -> (r: Result<Value, ParseError>)
    requires
        old(src)@.len() > 0,
        is_digit(old(src)@[0]),
    ensures
        agrees(r, number_spec(old(src)@), old(src)@, final(src)@),
{
    let ghost s = src@;
    let mut res: i64 = 0;
    let mut overflow = false;
    let ghost mut count: nat = 0;
    proof {
        lemma_digit_run(s);
        assert(s.take(0) =~= Seq::<char>::empty());
    }
    loop
        invariant
            s == old(src)@,
            count <= digit_run(s),
            src@ == s.skip(count as int),
            !overflow ==> res == digits_value(s.take(count as int)),
            overflow ==> digits_value(s.take(count as int)) > i64::MAX,
            digits_value(s.take(count as int)) >= 0,
            digit_run(s) <= s.len(),
            forall|i: int| 0 <= i < digit_run(s) ==> is_digit(s[i]),
            digit_run(s) < s.len() ==> !is_digit(s[digit_run(s) as int]),
        ensures
            count == digit_run(s),
        decreases src@.len(),
    {
        match src.next_if(|c: char| -> (b: bool) ensures b == is_digit(c) { is_ascii_digit(c) }) {
            Some(c) => {
                let ghost prefix = s.take(count as int + 1);
                assert(prefix.drop_last() =~= s.take(count as int));
                assert(prefix.last() == c);
                assert(s[count as int] == c && is_digit(c));
                assert(count < digit_run(s)) by {
                    if count == digit_run(s) {
                        assert(s[count as int] == c);
                    }
                }
                if !overflow {
                    let d = digit_of(c);
                    match res.checked_mul(10) {
                        Some(tens) => match tens.checked_add(d) {
                            Some(next) => {
                                res = next;
                            },
                            None => {
                                overflow = true;
                            },
                        },
                        None => {
                            overflow = true;
                        },
                    }
                }
                proof {
                    count = count + 1;
                }
                assert(src@ =~= s.skip(count as int));
            },
            None => {
                assert(count as int == digit_run(s)) by {
                    if count < digit_run(s) {
                        assert(src@[0] == s[count as int]);
                    }
                }
                break;
            },
        }
    }
    if overflow {
        Err(ParseError::NumericOverflow)
    } else {
        Ok(Value::Number(res))
    }
}

/// Reads every character up to the next comma as one token, which must be `true` or `false`.
/// A literal that closes an object or array with no comma after it takes the closing bracket
/// into its token, and fails.
pub fn parse_bool(src: &mut Cursor) -> (r: Result<Value, ParseError>)
    ensures
        agrees(r, literal_spec(old(src)@), old(src)@, final(src)@),
{
    let ghost s = src@;
    let mut token: Vec<char> = Vec::new();
    loop
        invariant
            token@.len() <= s.len(),
            token@ == s.take(token@.len() as int),
            src@ == s.skip(token@.len() as int),
            forall|i: int| 0 <= i < token@.len() ==> s[i] != ',',
        ensures
            src@.len() == 0 || src@[0] == ',',
        decreases src@.len(),
    {
        match src.next_if(|c: char| -> (b: bool) ensures b == (c != ',') { c != ',' }) {
            Some(c) => {
                token.push(c);
                assert(token@ =~= s.take(token@.len() as int));
                assert(src@ =~= s.skip(token@.len() as int));
            },
            None => {
                break;
            },
        }
    }
    proof {
        lemma_len_before(s, ',');
        let m = token@.len() as int;
        assert(m < s.len() ==> src@[0] == s[m]);
        assert(len_before(s, ',') == m);
    }
    let n = token.len();
    if n == 4 && token[0] == 't' && token[1] == 'r' && token[2] == 'u' && token[3] == 'e' {
        assert(token@ =~= seq!['t', 'r', 'u', 'e']);
        Ok(Value::True)
    } else if n == 5 && token[0] == 'f' && token[1] == 'a' && token[2] == 'l' && token[3] == 's'
        && token[4] == 'e' {
        assert(token@ =~= seq!['f', 'a', 'l', 's', 'e']);
        Ok(Value::False)
    } else {
        assert(token@ != seq!['t', 'r', 'u', 'e']) by {
            if token@ == seq!['t', 'r', 'u', 'e'] {
                assert(token@[0] == 't' && token@[1] == 'r' && token@[2] == 'u' && token@[3] == 'e');
            }
        }
        assert(token@ != seq!['f', 'a', 'l', 's', 'e']) by {
            if token@ == seq!['f', 'a', 'l', 's', 'e'] {
                assert(token@[0] == 'f' && token@[1] == 'a' && token@[2] == 'l' && token@[3] == 's'
                    && token@[4] == 'e');
            }
        }
        Err(ParseError::InvalidLiteral)
    }
}

/// Puts `(key, value)` into `object`: in place of the entry with an equal key, else at the end.
fn insert_entry(object: &mut Vec<(String, Value)>, key: String, value: Value)
    ensures
        entries_model(final(object)@) == put(entries_model(old(object)@), key@, value.model()),
{
    let ghost before = entries_model(object@);
    let ghost k = key@;
    let ghost v = value.model();
    let mut i: usize = 0;
    while i < object.len()
        invariant
            before == entries_model(object@),
            before == entries_model(old(object)@),
            k == key@,
            v == value.model(),
            i <= object.len(),
            forall|j: int| 0 <= j < i ==> before[j].0 != k,
        decreases object.len() - i,
    {
        if object[i].0 == key {
            proof {
                lemma_key_index_first(before, k, i as int);
            }
            object[i] = (key, value);
            assert(entries_model(object@) =~= before.update(i as int, (k, v)));
            return;
        }
        i = i + 1;
    }
    assert(key_index(before, k) is None);
    object.push((key, value));
    assert(entries_model(object@) =~= before.push((k, v)));
}

/// Reads one value, choosing the parser by the next character, which it does not consume.
pub fn parse_value(src: &mut Cursor) -> (r: Result<Value, ParseError>)
    ensures
        agrees(r, value_spec(old(src)@), old(src)@, final(src)@),
    decreases old(src)@.len(), 1nat,
{
    let ghost s = src@;
    match src.peek() {
        Some(c) => {
            if c == '{' {
                assert(value_spec(s) == object_spec(s));
                parse_object(src)
            } else if c == '"' {
                assert(value_spec(s) == string_spec(s));
                parse_string(src)
            } else if c == '[' {
                assert(value_spec(s) == array_spec(s));
                parse_array(src)
            } else if is_ascii_digit(c) {
                assert(value_spec(s) == number_spec(s));
                parse_number(src)
            } else {
                assert(value_spec(s) == literal_spec(s));
                parse_bool(src)
            }
        },
        None => {
            assert(value_spec(s) == literal_spec(s));
            parse_bool(src)
        },
    }
}

/// Reads an object: `{}`, or `{` then `key:value` entries separated by commas. An entry whose
/// key is already present replaces its value. The closing `}` after the last entry is not
/// read.
#[verifier::rlimit(60)]
pub fn parse_object(src: &mut Cursor) -> (r: Result<Value, ParseError>)
    ensures
        agrees(r, object_spec(old(src)@), old(src)@, final(src)@),
    decreases old(src)@.len(), 0nat,
{
    let ghost s = src@;
    if let Err(e) = match_char(src, '{') {
        assert(src@ =~= s.skip(0));
        return Err(e);
    }
    if src.next_if_eq('}').is_some() {
        let empty: Vec<(String, Value)> = Vec::new();
        proof {
            lemma_object_model(empty);
            assert(entries_model(empty@) =~= Seq::empty());
            assert(src@ =~= s.skip(2));
        }
        return Ok(Value::Object(empty));
    }
    let ghost t = src@;
    let mut object: Vec<(String, Value)> = Vec::new();
    let ghost mut done: nat = 0;
    assert(entries_model(object@) =~= Seq::empty());
    assert(t.skip(0) =~= t);
    loop
        invariant_except_break
            members_spec(t, Seq::empty()) == shifted(
                members_spec(src@, entries_model(object@)),
                done,
            ),
        invariant
            s == old(src)@,
            s.len() > 0 && s[0] == '{',
            !(s.len() > 1 && s[1] == '}'),
            t == s.drop_first(),
            done <= t.len(),
            src@ == t.skip(done as int),
        ensures
            done <= t.len(),
            src@ == t.skip(done as int),
            members_spec(t, Seq::empty()) == Ok::<(Seq<(Seq<char>, Json)>, nat), (ParseError, nat)>(
                (entries_model(object@), done),
            ),
        decreases src@.len(),
    {
        let ghost u = src@;
        let ghost acc = entries_model(object@);
        assert(u =~= s.skip(done + 1 as int));
        let key = match read_string(src) {
            Ok(k) => k,
            Err(e) => {
                assert(src@ =~= s.skip(s.len() - src@.len()));
                return Err(e);
            },
        };
        let ghost k = (u.len() - src@.len()) as nat;
        assert(src@ =~= u.skip(k as int));
        if let Err(e) = match_char(src, ':') {
            assert(src@ =~= s.skip(s.len() - src@.len()));
            return Err(e);
        }
        let ghost w = src@;
        assert(w =~= u.skip(k + 1 as int));
        let value = match parse_value(src) {
            Ok(v) => v,
            Err(e) => {
                assert(src@ =~= s.skip(s.len() - src@.len()));
                return Err(e);
            },
        };
        let ghost n = (w.len() - src@.len()) as nat;
        let ghost j = k + 1 + n;
        let ghost next = put(acc, key@, value.model());
        assert(src@ =~= u.skip(j as int));
        insert_entry(&mut object, key, value);
        if src.next_if_eq(',').is_none() {
            proof {
                assert(members_spec(u, acc) == Ok::<(Seq<(Seq<char>, Json)>, nat), (ParseError, nat)>(
                    (next, j),
                ));
                assert(src@ =~= t.skip(done + j as int));
                done = done + j;
            }
            break;
        }
        proof {
            assert(src@ =~= u.skip(j + 1 as int));
            assert(members_spec(u, acc) == shifted(members_spec(src@, next), j + 1));
            assert(src@ =~= t.skip(done + j + 1 as int));
            done = done + j + 1;
        }
    }
    proof {
        lemma_object_model(object);
        assert(src@ =~= s.skip(done + 1 as int));
    }
    Ok(Value::Object(object))
}

/// Reads an array: `[]`, or `[`, values separated by commas, and `]`.
pub fn parse_array(src: &mut Cursor) -> (r: Result<Value, ParseError>)
    ensures
        agrees(r, array_spec(old(src)@), old(src)@, final(src)@),
    decreases old(src)@.len(), 0nat,
{
    let ghost s = src@;
    if let Err(e) = match_char(src, '[') {
        assert(src@ =~= s.skip(0));
        return Err(e);
    }
    if src.next_if_eq(']').is_some() {
        let empty: Vec<Value> = Vec::new();
        proof {
            lemma_array_model(empty);
            assert(items_model(empty@) =~= Seq::empty());
            assert(src@ =~= s.skip(2));
        }
        return Ok(Value::Array(empty));
    }
    let ghost t = src@;
    let mut items: Vec<Value> = Vec::new();
    let ghost mut done: nat = 0;
    assert(items_model(items@) =~= Seq::empty());
    assert(t.skip(0) =~= t);
    loop
        invariant_except_break
            elements_spec(t, Seq::empty()) == shifted(
                elements_spec(src@, items_model(items@)),
                done,
            ),
        invariant
            s == old(src)@,
            s.len() > 0 && s[0] == '[',
            !(s.len() > 1 && s[1] == ']'),
            t == s.drop_first(),
            done <= t.len(),
            src@ == t.skip(done as int),
        ensures
            done <= t.len(),
            src@ == t.skip(done as int),
            elements_spec(t, Seq::empty()) == Ok::<(Seq<Json>, nat), (ParseError, nat)>(
                (items_model(items@), done),
            ),
        decreases src@.len(),
    {
        let ghost u = src@;
        let ghost acc = items_model(items@);
        assert(u =~= s.skip(done + 1 as int));
        let value = match parse_value(src) {
            Ok(v) => v,
            Err(e) => {
                assert(src@ =~= s.skip(s.len() - src@.len()));
                return Err(e);
            },
        };
        let ghost n = (u.len() - src@.len()) as nat;
        let ghost next = acc.push(value.model());
        assert(src@ =~= u.skip(n as int));
        items.push(value);
        assert(items_model(items@) =~= next);
        if src.next_if_eq(',').is_none() {
            proof {
                assert(elements_spec(u, acc) == Ok::<(Seq<Json>, nat), (ParseError, nat)>((next, n)));
                assert(src@ =~= t.skip(done + n as int));
                done = done + n;
            }
            break;
        }
        proof {
            assert(src@ =~= u.skip(n + 1 as int));
            assert(elements_spec(u, acc) == shifted(elements_spec(src@, next), n + 1));
            assert(src@ =~= t.skip(done + n + 1 as int));
            done = done + n + 1;
        }
    }
    if let Err(e) = match_char(src, ']') {
        assert(src@ =~= s.skip(done + 1 as int));
        return Err(e);
    }
    proof {
        lemma_array_model(items);
        assert(src@ =~= s.skip(done + 2 as int));
    }
    Ok(Value::Array(items))
}

/// The characters of `input` with every white-space character removed, inside strings too.
pub fn strip_whitespace(input: &str) -> (r: Vec<char>)
    ensures
        r@ == strip_ws(input@),
{
    broadcast use vstd::string::group_string_axioms;

    let mut out: Vec<char> = Vec::new();
    for c in it: input.chars()
        invariant
            it.seq() == input@,
            out@ == strip_ws(input@.take(it.index() as int)),
    {
        let ghost k = it.index() as int;
        assert(input@.take(k + 1).drop_last() =~= input@.take(k));
        if !c.is_whitespace() {
            out.push(c);
        }
    }
    assert(input@.take(input@.len() as int) =~= input@);
    out
}

/// Parses `input` as an object, after removing all white space. What follows the object is
/// not read.
pub fn parse(input: &str) -> (r: Result<Value, ParseError>)
    ensures
        match parse_spec(input@) {
            Ok(j) => r is Ok && r->Ok_0.model() == j,
            Err(e) => r == Err::<Value, ParseError>(e),
        },
{
    let mut src = Cursor::new(strip_whitespace(input));
    parse_object(&mut src)
}

} // verus!
