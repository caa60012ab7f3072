//! A structured, self-describing document value, together with its canonical
//! text rendering. The renderer writes no insignificant whitespace and
//! escapes exactly the quote, the backslash and the three common control
//! characters; `text_of` is the exact model of its output.
//!
//! The rendering is injective — `lemma_text_of_injective` proves that the
//! canonical text determines the value — and `decode` accepts exactly the
//! canonical texts: it succeeds precisely on the canonical text of a value
//! the library can hold, handing back that value, so decoding inverts
//! encoding outright.

use vstd::prelude::*;

verus! {

/// A structured document value: the payload behind a JSON body.
#[derive(Debug, PartialEq, Eq)]
pub enum JsonValue {
    Null,
    Bool(bool),
    Int(i64),
    Text(String),
    Array(Vec<JsonValue>),
    Object(Vec<(String, JsonValue)>),
}

/// The mathematical shape of a `JsonValue`.
pub enum JsonView {
    Null,
    Bool(bool),
    Int(int),
    Text(Seq<char>),
    Array(Seq<JsonView>),
    Object(Seq<(Seq<char>, JsonView)>),
}

impl View for JsonValue {
    type V = JsonView;

    open spec fn view(&self) -> JsonView
        decreases self,
    {
        match self {
            JsonValue::Null => JsonView::Null,
            JsonValue::Bool(b) => JsonView::Bool(*b),
            JsonValue::Int(i) => JsonView::Int(*i as int),
            JsonValue::Text(s) => JsonView::Text(s@),
            JsonValue::Array(items) => JsonView::Array(views_of(items@)),
            JsonValue::Object(fields) => JsonView::Object(field_views_of(fields@)),
        }
    }
}

/// The views of a sequence of document values.
pub open spec fn views_of(s: Seq<JsonValue>) -> Seq<JsonView>
    decreases s,
{
    if s.len() == 0 {
        Seq::empty()
    } else {
        views_of(s.drop_last()).push(s.last()@)
    }
}

/// The views of a sequence of key/value fields.
pub open spec fn field_views_of(s: Seq<(String, JsonValue)>) -> Seq<(Seq<char>, JsonView)>
    decreases s,
{
    if s.len() == 0 {
        Seq::empty()
    } else {
        field_views_of(s.drop_last()).push((s.last().0@, s.last().1@))
    }
}

/// `views_of` is the pointwise view.
pub proof fn lemma_views_of(s: Seq<JsonValue>)
    ensures
        views_of(s).len() == s.len(),
        forall|i: int| 0 <= i < s.len() ==> views_of(s)[i] == #[trigger] s[i]@,
    decreases s,
{
    if s.len() > 0 {
        lemma_views_of(s.drop_last());
        assert(views_of(s) == views_of(s.drop_last()).push(s.last()@));
        assert forall|i: int| 0 <= i < s.len() implies views_of(s)[i] == #[trigger] s[i]@ by {
            if i < s.len() - 1 {
                assert(views_of(s.drop_last())[i] == s.drop_last()[i]@);
                assert(s.drop_last()[i] == s[i]);
                assert(views_of(s)[i] == views_of(s.drop_last())[i]);
            } else {
                assert(views_of(s)[i] == s.last()@);
            }
        }
    }
}

/// `field_views_of` is the pointwise view.
pub proof fn lemma_field_views_of(s: Seq<(String, JsonValue)>)
    ensures
        field_views_of(s).len() == s.len(),
        forall|i: int|
            0 <= i < s.len() ==> field_views_of(s)[i] == (#[trigger] s[i].0@, s[i].1@),
    decreases s,
{
    if s.len() > 0 {
        lemma_field_views_of(s.drop_last());
        assert(field_views_of(s) == field_views_of(s.drop_last()).push((s.last().0@, s.last().1@)));
        assert forall|i: int| 0 <= i < s.len() implies field_views_of(s)[i] == (
        #[trigger] s[i].0@, s[i].1@) by {
            if i < s.len() - 1 {
                assert(field_views_of(s.drop_last())[i] == (s.drop_last()[i].0@,
                    s.drop_last()[i].1@));
                assert(s.drop_last()[i] == s[i]);
                assert(field_views_of(s)[i] == field_views_of(s.drop_last())[i]);
            } else {
                assert(field_views_of(s)[i] == (s.last().0@, s.last().1@));
            }
        }
    }
}

/// The character for a single decimal digit.
pub open spec fn digit_char(d: int) -> char {
    if d == 0 {
        '0'
    } else if d == 1 {
        '1'
    } else if d == 2 {
        '2'
    } else if d == 3 {
        '3'
    } else if d == 4 {
        '4'
    } else if d == 5 {
        '5'
    } else if d == 6 {
        '6'
    } else if d == 7 {
        '7'
    } else if d == 8 {
        '8'
    } else {
        '9'
    }
}

/// The decimal digits of a non-negative integer, most significant first.
pub open spec fn dec_text(n: int) -> Seq<char>
    decreases n,
{
    if n < 10 {
        seq![digit_char(n)]
    } else {
        dec_text(n / 10).push(digit_char(n % 10))
    }
}

/// The decimal rendering of an integer, with a leading minus sign when it is
/// negative.
pub open spec fn int_text(i: int) -> Seq<char> {
    if i < 0 {
        seq!['-'] + dec_text(-i)
    } else {
        dec_text(i)
    }
}

/// The character for a single hexadecimal digit.
pub open spec fn hex_char(d: int) -> char {
    if d < 10 {
        digit_char(d)
    } else if d == 10 {
        'a'
    } else if d == 11 {
        'b'
    } else if d == 12 {
        'c'
    } else if d == 13 {
        'd'
    } else if d == 14 {
        'e'
    } else {
        'f'
    }
}

/// The escape sequence that stands for one character inside a quoted string:
/// the quote, the backslash and the three named control characters have
/// two-character escapes, every other control character a six-character
/// code-point escape, and everything else stands for itself.
pub open spec fn escape_char(c: char) -> Seq<char> {
    if c == '"' {
        seq!['\\', '"']
    } else if c == '\\' {
        seq!['\\', '\\']
    } else if c == '\n' {
        seq!['\\', 'n']
    } else if c == '\r' {
        seq!['\\', 'r']
    } else if c == '\t' {
        seq!['\\', 't']
    } else if (c as u32) < 32 {
        seq!['\\', 'u', '0', '0', hex_char(c as u32 as int / 16), hex_char(c as u32 as int % 16)]
    } else {
        seq![c]
    }
}

/// The escaped form of a whole string, without the surrounding quotes.
pub open spec fn escape_text(s: Seq<char>) -> Seq<char>
    decreases s.len(),
{
    if s.len() == 0 {
        Seq::empty()
    } else {
        escape_text(s.drop_last()) + escape_char(s.last())
    }
}

/// The canonical text of a document value.
pub open spec fn text_of(v: JsonView) -> Seq<char>
    decreases v,
{
    match v {
        JsonView::Null => seq!['n', 'u', 'l', 'l'],
        JsonView::Bool(b) => if b {
            seq!['t', 'r', 'u', 'e']
        } else {
            seq!['f', 'a', 'l', 's', 'e']
        },
        JsonView::Int(i) => int_text(i),
        JsonView::Text(s) => seq!['"'] + escape_text(s) + seq!['"'],
        JsonView::Array(items) => seq!['['] + items_text(items) + seq![']'],
        JsonView::Object(fields) => seq!['{'] + fields_text(fields) + seq!['}'],
    }
}

/// The comma-separated texts of the elements of an array.
pub open spec fn items_text(items: Seq<JsonView>) -> Seq<char>
    decreases items,
{
    if items.len() == 0 {
        Seq::empty()
    } else if items.len() == 1 {
        text_of(items.last())
    } else {
        items_text(items.drop_last()) + seq![','] + text_of(items.last())
    }
}

/// The comma-separated texts of the fields of an object, each a quoted key,
/// a colon and the value.
pub open spec fn fields_text(fields: Seq<(Seq<char>, JsonView)>) -> Seq<char>
    decreases fields,
{
    if fields.len() == 0 {
        Seq::empty()
    } else {
        let entry = seq!['"'] + escape_text(fields.last().0) + seq!['"', ':'] + text_of(
            fields.last().1,
        );
        if fields.len() == 1 {
            entry
        } else {
            fields_text(fields.drop_last()) + seq![','] + entry
        }
    }
}

/// Relies on std's String::push: it appends the one character.
#[verifier::external_body]
pub fn push_char(out: &mut String, c: char)
    ensures
        final(out)@ == old(out)@.push(c),
{
    out.push(c);
}

/// Append the decimal digits of `n`.
fn push_dec(out: &mut String, n: u64)
    ensures
        final(out)@ == old(out)@ + dec_text(n as int),
    decreases n,
{
    if n >= 10 {
        push_dec(out, n / 10);
    }
    let d = (n % 10) as u8;
    let c: char = if d == 0 {
        '0'
    } else if d == 1 {
        '1'
    } else if d == 2 {
        '2'
    } else if d == 3 {
        '3'
    } else if d == 4 {
        '4'
    } else if d == 5 {
        '5'
    } else if d == 6 {
        '6'
    } else if d == 7 {
        '7'
    } else if d == 8 {
        '8'
    } else {
        '9'
    };
    assert(c == digit_char(n as int % 10));
    push_char(out, c);
    proof {
        if n < 10 {
            assert(dec_text(n as int) =~= seq![digit_char(n as int)]);
        } else {
            assert(old(out)@ + dec_text(n as int) =~= old(out)@ + dec_text(n as int / 10)
                + seq![digit_char(n as int % 10)]);
        }
        assert(final(out)@ =~= old(out)@ + dec_text(n as int));
    }
}

/// Append the decimal rendering of a signed integer.
fn push_int(out: &mut String, i: i64)
    ensures
        final(out)@ == old(out)@ + int_text(i as int),
{
    if i < 0 {
        push_char(out, '-');
        let magnitude: u64 = if i == i64::MIN {
            9223372036854775808u64
        } else {
            (-i) as u64
        };
        assert(magnitude as int == -(i as int));
        push_dec(out, magnitude);
        proof {
            assert(final(out)@ =~= old(out)@ + int_text(i as int));
        }
    } else {
        push_dec(out, i as u64);
    }
}

/// The character for one hexadecimal digit.
fn hex_char_of(d: u32) -> (r: char)
    requires
        d < 16,
    ensures
        r == hex_char(d as int),
{
    if d == 0 {
        '0'
    } else if d == 1 {
        '1'
    } else if d == 2 {
        '2'
    } else if d == 3 {
        '3'
    } else if d == 4 {
        '4'
    } else if d == 5 {
        '5'
    } else if d == 6 {
        '6'
    } else if d == 7 {
        '7'
    } else if d == 8 {
        '8'
    } else if d == 9 {
        '9'
    } else if d == 10 {
        'a'
    } else if d == 11 {
        'b'
    } else if d == 12 {
        'c'
    } else if d == 13 {
        'd'
    } else if d == 14 {
        'e'
    } else {
        'f'
    }
}

/// Append the escaped form of one character.
fn push_escaped_char(out: &mut String, c: char)
    ensures
        final(out)@ == old(out)@ + escape_char(c),
{
    if c == '"' {
        push_char(out, '\\');
        push_char(out, '"');
    } else if c == '\\' {
        push_char(out, '\\');
        push_char(out, '\\');
    } else if c == '\n' {
        push_char(out, '\\');
        push_char(out, 'n');
    } else if c == '\r' {
        push_char(out, '\\');
        push_char(out, 'r');
    } else if c == '\t' {
        push_char(out, '\\');
        push_char(out, 't');
    } else if (c as u32) < 32 {
        let code: u32 = c as u32;
        push_char(out, '\\');
        push_char(out, 'u');
        push_char(out, '0');
        push_char(out, '0');
        push_char(out, hex_char_of(code / 16));
        push_char(out, hex_char_of(code % 16));
    } else {
        push_char(out, c);
    }
    proof {
        assert(final(out)@ =~= old(out)@ + escape_char(c));
    }
}

/// Append a quoted, escaped string.
#[verifier::loop_isolation(false)]
fn push_quoted(out: &mut String, s: &String)
    ensures
        final(out)@ == old(out)@ + seq!['"'] + escape_text(s@) + seq!['"'],
{
    push_char(out, '"');
    let n = s.as_str().unicode_len();
    let mut i: usize = 0;
    while i < n
        invariant
            0 <= i <= n,
            n == s@.len(),
            out@ == old(out)@ + seq!['"'] + escape_text(s@.take(i as int)),
        decreases n - i,
    {
        let ghost pre = out@;
        let c = s.as_str().get_char(i);
        push_escaped_char(out, c);
        proof {
            assert(s@.take(i + 1).drop_last() =~= s@.take(i as int));
            assert(s@.take(i + 1).last() == s@[i as int]);
            assert(escape_text(s@.take(i + 1)) =~= escape_text(s@.take(i as int)) + escape_char(
                s@[i as int],
            ));
            assert(out@ =~= old(out)@ + seq!['"'] + escape_text(s@.take(i + 1)));
        }
        i += 1;
    }
    push_char(out, '"');
    proof {
        assert(s@.take(n as int) =~= s@);
        assert(final(out)@ =~= old(out)@ + seq!['"'] + escape_text(s@) + seq!['"']);
    }
}

/// Append the canonical text of a document value.
#[verifier::loop_isolation(false)]
#[verifier::rlimit(60)]
pub fn push_json(out: &mut String, v: &JsonValue)
    ensures
        final(out)@ == old(out)@ + text_of(v@),
    decreases v,
{
    match v {
        JsonValue::Null => {
            out.append("null");
            proof {
                reveal_strlit("null");
                assert(final(out)@ =~= old(out)@ + text_of(v@));
            }
        },
        JsonValue::Bool(b) => {
            if *b {
                out.append("true");
            } else {
                out.append("false");
            }
            proof {
                reveal_strlit("true");
                reveal_strlit("false");
                assert(final(out)@ =~= old(out)@ + text_of(v@));
            }
        },
        JsonValue::Int(i) => {
            push_int(out, *i);
        },
        JsonValue::Text(s) => {
            push_quoted(out, s);
        },
        JsonValue::Array(items) => {
            let ghost iv = views_of(items@);
            proof {
                lemma_views_of(items@);
            }
            push_char(out, '[');
            let n = items.len();
            let mut i: usize = 0;
            while i < n
                invariant
                    0 <= i <= n,
                    n == items@.len(),
                    out@ == old(out)@ + seq!['['] + items_text(iv.take(i as int)),
                decreases n - i,
            {
                if i > 0 {
                    push_char(out, ',');
                }
                proof {
                    assert(decreases_to!(*v => items@[i as int]));
                }
                push_json(out, &items[i]);
                proof {
                    assert(iv.take(i + 1).drop_last() =~= iv.take(i as int));
                    assert(iv.take(i + 1).last() == items@[i as int]@);
                    if i == 0 {
                        assert(items_text(iv.take(1)) == text_of(iv.take(1).last()));
                    } else {
                        assert(items_text(iv.take(i + 1)) == items_text(iv.take(i as int)) + seq![
                            ',',
                        ] + text_of(iv[i as int]));
                    }
                    assert(out@ =~= old(out)@ + seq!['['] + items_text(iv.take(i + 1)));
                }
                i += 1;
            }
            push_char(out, ']');
            proof {
                assert(iv.take(n as int) =~= iv);
                assert(text_of(v@) == seq!['['] + items_text(iv) + seq![']']);
                assert(final(out)@ =~= old(out)@ + text_of(v@));
            }
        },
        JsonValue::Object(fields) => {
            let ghost fv = field_views_of(fields@);
            proof {
                lemma_field_views_of(fields@);
            }
            push_char(out, '{');
            let n = fields.len();
            let mut i: usize = 0;
            while i < n
                invariant
                    0 <= i <= n,
                    n == fields@.len(),
                    out@ == old(out)@ + seq!['{'] + fields_text(fv.take(i as int)),
                decreases n - i,
            {
                if i > 0 {
                    push_char(out, ',');
                }
                push_quoted(out, &fields[i].0);
                push_char(out, ':');
                proof {
                    assert(decreases_to!(*v => fields@[i as int].1));
                }
                push_json(out, &fields[i].1);
                proof {
                    assert(fv.take(i + 1).drop_last() =~= fv.take(i as int));
                    assert(fv.take(i + 1).last() == (fields@[i as int].0@, fields@[i as int].1@));
                    let entry = seq!['"'] + escape_text(fv[i as int].0) + seq!['"', ':'] + text_of(
                        fv[i as int].1,
                    );
                    if i == 0 {
                        assert(fields_text(fv.take(1)) == entry);
                    } else {
                        assert(fields_text(fv.take(i + 1)) == fields_text(fv.take(i as int)) + seq![
                            ',',
                        ] + entry);
                    }
                    assert(out@ =~= old(out)@ + seq!['{'] + fields_text(fv.take(i + 1)));
                }
                i += 1;
            }
            push_char(out, '}');
            proof {
                assert(fv.take(n as int) =~= fv);
                assert(text_of(v@) == seq!['{'] + fields_text(fv) + seq!['}']);
                assert(final(out)@ =~= old(out)@ + text_of(v@));
            }
        },
    }
}

/// The canonical text of a document value, as a fresh string.
pub fn encode(v: &JsonValue) -> (r: String)
    ensures
        r@ == text_of(v@),
{
    let mut out = String::new();
    push_json(&mut out, v);
    out
}

/// The characters of a string, as a vector.
#[verifier::loop_isolation(false)]
fn chars_of(s: &str) -> (r: Vec<char>)
    ensures
        r@ == s@,
{
    let n = s.unicode_len();
    let mut out: Vec<char> = Vec::new();
    let mut i: usize = 0;
    while i < n
        invariant
            0 <= i <= n,
            n == s@.len(),
            out@ == s@.take(i as int),
        decreases n - i,
    {
        out.push(s.get_char(i));
        proof {
            assert(out@ =~= s@.take(i + 1));
        }
        i += 1;
    }
    proof {
        assert(s@.take(n as int) =~= s@);
    }
    out
}

/// The digit a character stands for, if any.
fn digit_of(c: char) -> (r: Option<u8>)
    ensures
        r matches Some(d) ==> d < 10 && digit_char(d as int) == c,
        r is None ==> !is_digit_char(c),
{
    match c {
        '0' => Some(0),
        '1' => Some(1),
        '2' => Some(2),
        '3' => Some(3),
        '4' => Some(4),
        '5' => Some(5),
        '6' => Some(6),
        '7' => Some(7),
        '8' => Some(8),
        '9' => Some(9),
        _ => None,
    }
}

/// The head character of a value's text, seen at its position in `s`.
proof fn lemma_value_head(s: Seq<char>, i: int, vv: JsonView)
    requires
        value_at(s, i, vv),
    ensures
        i < s.len(),
        text_of(vv).len() > 0,
        s[i] == text_of(vv)[0],
        forall|k: int| 0 <= k < text_of(vv).len() ==> s[i + k] == #[trigger] text_of(vv)[k],
        (match vv {
            JsonView::Null => s[i] == 'n',
            JsonView::Bool(b) => s[i] == (if b {
                't'
            } else {
                'f'
            }),
            JsonView::Int(m) => if m < 0 {
                s[i] == '-'
            } else {
                is_digit_char(s[i])
            },
            JsonView::Text(_) => s[i] == '"',
            JsonView::Array(_) => s[i] == '[',
            JsonView::Object(_) => s[i] == '{',
        }),
{
    lemma_head_char(vv);
    assert forall|k: int| 0 <= k < text_of(vv).len() implies s[i + k] == #[trigger] text_of(vv)[
        k
    ] by {
        assert(s.subrange(i, i + text_of(vv).len())[k] == s[i + k]);
    }
    assert(s[i + 0] == text_of(vv)[0]);
}

/// Parse one value from position `i`: a parse consumes at least one
/// character, and the canonical text of every representable value is read
/// back exactly.
#[verifier::loop_isolation(false)]
#[verifier::rlimit(100)]
fn parse_value(chars: &Vec<char>, i: usize) -> (r: Option<(JsonValue, usize)>)
    requires
        i <= chars@.len(),
    ensures
        r matches Some(p) ==> i < p.1 <= chars@.len(),
        forall|vv: JsonView|
            representable(vv) && #[trigger] value_at(chars@, i as int, vv) ==> (r matches Some(p)
                && p.0@ == vv && p.1 == i + text_of(vv).len()),
    decreases chars@.len() - i,
{
    let n = chars.len();
    if i >= n {
        proof {
            assert forall|vv: JsonView|
                representable(vv) && #[trigger] value_at(chars@, i as int, vv) implies false by {
                lemma_value_head(chars@, i as int, vv);
            }
        }
        return None;
    }
    let c = chars[i];
    if c == 'n' {
        proof {
            assert forall|vv: JsonView|
                representable(vv) && #[trigger] value_at(chars@, i as int, vv) implies vv
                == JsonView::Null && n - i >= 4 && chars@[i + 1] == 'u' && chars@[i + 2] == 'l'
                && chars@[i + 3] == 'l' by {
                lemma_value_head(chars@, i as int, vv);
                lemma_digit_not_delimiter();
                if vv matches JsonView::Int(m) && m >= 0 {
                    let d = choose|d: int| 0 <= d < 10 && digit_char(d) == chars@[i as int];
                    assert(digit_char(d) != 'n');
                }
                assert(vv is Null);
                assert(text_of(JsonView::Null) == seq!['n', 'u', 'l', 'l']);
            }
        }
        if n - i >= 4 && chars[i + 1] == 'u' && chars[i + 2] == 'l' && chars[i + 3] == 'l' {
            Some((JsonValue::Null, i + 4))
        } else {
            None
        }
    } else if c == 't' {
        proof {
            assert forall|vv: JsonView|
                representable(vv) && #[trigger] value_at(chars@, i as int, vv) implies vv
                == JsonView::Bool(true) && n - i >= 4 && chars@[i + 1] == 'r' && chars@[i + 2]
                == 'u' && chars@[i + 3] == 'e' by {
                lemma_value_head(chars@, i as int, vv);
                lemma_digit_not_delimiter();
                if vv matches JsonView::Int(m) && m >= 0 {
                    let d = choose|d: int| 0 <= d < 10 && digit_char(d) == chars@[i as int];
                    assert(digit_char(d) != 't');
                }
                assert(vv == JsonView::Bool(true));
                assert(text_of(vv) == seq!['t', 'r', 'u', 'e']);
            }
        }
        if n - i >= 4 && chars[i + 1] == 'r' && chars[i + 2] == 'u' && chars[i + 3] == 'e' {
            Some((JsonValue::Bool(true), i + 4))
        } else {
            None
        }
    } else if c == 'f' {
        proof {
            assert forall|vv: JsonView|
                representable(vv) && #[trigger] value_at(chars@, i as int, vv) implies vv
                == JsonView::Bool(false) && n - i >= 5 && chars@[i + 1] == 'a' && chars@[i + 2]
                == 'l' && chars@[i + 3] == 's' && chars@[i + 4] == 'e' by {
                lemma_value_head(chars@, i as int, vv);
                lemma_digit_not_delimiter();
                if vv matches JsonView::Int(m) && m >= 0 {
                    let d = choose|d: int| 0 <= d < 10 && digit_char(d) == chars@[i as int];
                    assert(digit_char(d) != 'f');
                }
                assert(vv == JsonView::Bool(false));
                assert(text_of(vv) == seq!['f', 'a', 'l', 's', 'e']);
            }
        }
        if n - i >= 5 && chars[i + 1] == 'a' && chars[i + 2] == 'l' && chars[i + 3] == 's' && chars[
            i + 4] == 'e' {
            Some((JsonValue::Bool(false), i + 5))
        } else {
            None
        }
    } else if c == '"' {
        proof {
            assert forall|vv: JsonView|
                representable(vv) && #[trigger] value_at(chars@, i as int, vv) implies (vv
                matches JsonView::Text(t0) && quoted_at(chars@, i as int, t0)) by {
                lemma_value_head(chars@, i as int, vv);
                lemma_digit_not_delimiter();
                if vv matches JsonView::Int(m) && m >= 0 {
                    let d = choose|d: int| 0 <= d < 10 && digit_char(d) == chars@[i as int];
                    assert(digit_char(d) != '"');
                }
                assert(vv is Text);
            }
        }
        match parse_string(chars, i) {
            Some(p) => Some((JsonValue::Text(p.0), p.1)),
            None => None,
        }
    } else if c == '[' {
        let mut items: Vec<JsonValue> = Vec::new();
        let mut cur: usize = i + 1;
        proof {
            assert forall|vv: JsonView|
                representable(vv) && #[trigger] value_at(chars@, i as int, vv) implies (vv
                matches JsonView::Array(is) && representable_seq(is) && value_at(
                chars@,
                i as int,
                JsonView::Array(is),
            )) by {
                lemma_value_head(chars@, i as int, vv);
                lemma_digit_not_delimiter();
                if vv matches JsonView::Int(m) && m >= 0 {
                    let d = choose|d: int| 0 <= d < 10 && digit_char(d) == chars@[i as int];
                    assert(digit_char(d) != '[');
                }
                assert(vv is Array);
            }
        }
        proof {
            assert forall|is: Seq<JsonView>|
                representable_seq(is) && #[trigger] value_at(
                    chars@,
                    i as int,
                    JsonView::Array(is),
                ) implies (is.len() == 0 ==> chars@[i + 1] == ']' && i + 2 <= n) && (is.len() > 0
                ==> chars@[i + 1] != ']') by {
                lemma_value_head(chars@, i as int, JsonView::Array(is));
                if is.len() == 0 {
                    assert(items_text(is) == Seq::<char>::empty());
                    assert(text_of(JsonView::Array(is)) =~= seq!['[', ']']);
                } else {
                    lemma_array_layout(chars@, i as int, is, 0);
                    lemma_value_head(chars@, i + 1, is[0]);
                    lemma_digit_not_delimiter();
                    if is[0] matches JsonView::Int(m) && m >= 0 {
                        let d = choose|d: int| 0 <= d < 10 && digit_char(d) == chars@[i + 1];
                        assert(digit_char(d) != ']');
                    }
                    assert(items_text(is.take(0)) == Seq::<char>::empty());
                }
            }
        }
        if cur < n && chars[cur] == ']' {
            proof {
                lemma_views_of(items@);
                assert forall|is: Seq<JsonView>|
                    representable_seq(is) && #[trigger] value_at(
                        chars@,
                        i as int,
                        JsonView::Array(is),
                    ) implies is.len() == 0 && views_of(items@) == is && cur + 1 == i + text_of(
                    JsonView::Array(is),
                ).len() by {
                    assert(views_of(items@) =~= is);
                    assert(text_of(JsonView::Array(is)) =~= seq!['[', ']']);
                }
            }
            return Some((JsonValue::Array(items), cur + 1));
        }
        loop
            invariant
                i < cur <= n,
                forall|is: Seq<JsonView>|
                    representable_seq(is) && #[trigger] value_at(
                        chars@,
                        i as int,
                        JsonView::Array(is),
                    ) ==> ({
                        let m = items@.len() as int;
                        &&& m < is.len()
                        &&& views_of(items@) == is.take(m)
                        &&& cur == i + 1 + items_text(is.take(m)).len() + (if m > 0 {
                            1int
                        } else {
                            0int
                        })
                    }),
            decreases n - cur,
        {
            let ghost pre_items = items@;
            proof {
                assert forall|is: Seq<JsonView>|
                    representable_seq(is) && #[trigger] value_at(
                        chars@,
                        i as int,
                        JsonView::Array(is),
                    ) implies (representable(is[pre_items.len() as int]) && value_at(
                    chars@,
                    cur as int,
                    is[pre_items.len() as int],
                )) by {
                    lemma_array_layout(chars@, i as int, is, pre_items.len() as int);
                    lemma_representable_seq_index(is, pre_items.len() as int);
                }
            }
            match parse_value(chars, cur) {
                Some(p) => {
                    let ghost step = p;
                    items.push(p.0);
                    let ghost oldcur = cur as int;
                    cur = p.1;
                    proof {
                        assert forall|is: Seq<JsonView>|
                            representable_seq(is) && #[trigger] value_at(
                                chars@,
                                i as int,
                                JsonView::Array(is),
                            ) implies ({
                            let m = pre_items.len() as int;
                            &&& step.0@ == is[m]
                            &&& views_of(items@) == is.take(m + 1)
                            &&& cur == i + 1 + items_text(is.take(m + 1)).len()
                            &&& (m + 1 < is.len() ==> chars@[cur as int] == ',' && cur < n)
                            &&& (m + 1 == is.len() ==> chars@[cur as int] == ']' && cur < n && cur
                                + 1 == i + text_of(JsonView::Array(is)).len())
                        }) by {
                            let m = pre_items.len() as int;
                            lemma_array_layout(chars@, i as int, is, m);
                            lemma_representable_seq_index(is, m);
                            assert(items@ =~= pre_items.push(step.0));
                            assert(items@.drop_last() =~= pre_items);
                            assert(views_of(items@) =~= views_of(pre_items).push(step.0@));
                            assert(is.take(m + 1).drop_last() =~= is.take(m));
                            assert(is.take(m + 1).last() == is[m]);
                            assert(views_of(items@) =~= is.take(m + 1));
                            if m == 0 {
                                assert(items_text(is.take(1)) == text_of(is.take(1).last()));
                            } else {
                                assert(items_text(is.take(m + 1)) == items_text(is.take(m)) + seq![
                                    ',',
                                ] + text_of(is[m]));
                            }
                        }
                    }
                },
                None => {
                    proof {
                        assert forall|is: Seq<JsonView>|
                            representable_seq(is) && #[trigger] value_at(
                                chars@,
                                i as int,
                                JsonView::Array(is),
                            ) implies false by {
                            lemma_representable_seq_index(is, pre_items.len() as int);
                        }
                    }
                    return None;
                },
            }
            if cur < n && chars[cur] == ',' {
                proof {
                    assert forall|is: Seq<JsonView>|
                        representable_seq(is) && #[trigger] value_at(
                            chars@,
                            i as int,
                            JsonView::Array(is),
                        ) implies items@.len() < is.len() by {
                        if items@.len() as int == is.len() {
                            assert(chars@[cur as int] == ']');
                        }
                    }
                }
                cur = cur + 1;
            } else if cur < n && chars[cur] == ']' {
                proof {
                    lemma_views_of(items@);
                    assert forall|is: Seq<JsonView>|
                        representable_seq(is) && #[trigger] value_at(
                            chars@,
                            i as int,
                            JsonView::Array(is),
                        ) implies views_of(items@) == is && cur + 1 == i + text_of(
                        JsonView::Array(is),
                    ).len() by {
                        if (items@.len() as int) < is.len() {
                            assert(chars@[cur as int] == ',');
                        }
                        assert(is.take(is.len() as int) =~= is);
                    }
                }
                return Some((JsonValue::Array(items), cur + 1));
            } else {
                proof {
                    assert forall|is: Seq<JsonView>|
                        representable_seq(is) && #[trigger] value_at(
                            chars@,
                            i as int,
                            JsonView::Array(is),
                        ) implies false by {}
                }
                return None;
            }
        }
    } else if c == '{' {
        let mut fields: Vec<(String, JsonValue)> = Vec::new();
        let mut cur: usize = i + 1;
        proof {
            assert forall|vv: JsonView|
                representable(vv) && #[trigger] value_at(chars@, i as int, vv) implies (vv
                matches JsonView::Object(fs) && representable_fields(fs) && value_at(
                chars@,
                i as int,
                JsonView::Object(fs),
            )) by {
                lemma_value_head(chars@, i as int, vv);
                lemma_digit_not_delimiter();
                if vv matches JsonView::Int(m) && m >= 0 {
                    let d = choose|d: int| 0 <= d < 10 && digit_char(d) == chars@[i as int];
                    assert(digit_char(d) != '{');
                }
                assert(vv is Object);
            }
        }
        proof {
            assert forall|fs: Seq<(Seq<char>, JsonView)>|
                representable_fields(fs) && #[trigger] value_at(
                    chars@,
                    i as int,
                    JsonView::Object(fs),
                ) implies (fs.len() == 0 ==> chars@[i + 1] == '}' && i + 2 <= n) && (fs.len() > 0
                ==> chars@[i + 1] == '"') by {
                lemma_value_head(chars@, i as int, JsonView::Object(fs));
                if fs.len() == 0 {
                    assert(fields_text(fs) == Seq::<char>::empty());
                    assert(text_of(JsonView::Object(fs)) =~= seq!['{', '}']);
                } else {
                    lemma_object_layout(chars@, i as int, fs, 0);
                    let q = seq!['"'] + escape_text(fs[0].0) + seq!['"'];
                    assert(chars@.subrange(i + 1, i + 1 + q.len())[0] == chars@[i + 1]);
                    assert(fields_text(fs.take(0)) == Seq::<char>::empty());
                }
            }
        }
        if cur < n && chars[cur] == '}' {
            proof {
                lemma_field_views_of(fields@);
                assert forall|fs: Seq<(Seq<char>, JsonView)>|
                    representable_fields(fs) && #[trigger] value_at(
                        chars@,
                        i as int,
                        JsonView::Object(fs),
                    ) implies fs.len() == 0 && field_views_of(fields@) == fs && cur + 1 == i
                    + text_of(JsonView::Object(fs)).len() by {
                    assert(field_views_of(fields@) =~= fs);
                    assert(text_of(JsonView::Object(fs)) =~= seq!['{', '}']);
                }
            }
            return Some((JsonValue::Object(fields), cur + 1));
        }
        loop
            invariant
                i < cur <= n,
                forall|fs: Seq<(Seq<char>, JsonView)>|
                    representable_fields(fs) && #[trigger] value_at(
                        chars@,
                        i as int,
                        JsonView::Object(fs),
                    ) ==> ({
                        let m = fields@.len() as int;
                        &&& m < fs.len()
                        &&& field_views_of(fields@) == fs.take(m)
                        &&& cur == i + 1 + fields_text(fs.take(m)).len() + (if m > 0 {
                            1int
                        } else {
                            0int
                        })
                    }),
            decreases n - cur,
        {
            let ghost pre_fields = fields@;
            proof {
                assert forall|fs: Seq<(Seq<char>, JsonView)>|
                    representable_fields(fs) && #[trigger] value_at(
                        chars@,
                        i as int,
                        JsonView::Object(fs),
                    ) implies quoted_at(chars@, cur as int, fs[pre_fields.len() as int].0) by {
                    lemma_object_layout(chars@, i as int, fs, pre_fields.len() as int);
                }
            }
            let key = match parse_string(chars, cur) {
                Some(p) => {
                    let ghost kstep = p;
                    proof {
                        assert forall|fs: Seq<(Seq<char>, JsonView)>|
                            representable_fields(fs) && #[trigger] value_at(
                                chars@,
                                i as int,
                                JsonView::Object(fs),
                            ) implies ({
                            let m = pre_fields.len() as int;
                            &&& kstep.0@ == fs[m].0
                            &&& kstep.1 < n
                            &&& chars@[kstep.1 as int] == ':'
                            &&& value_at(chars@, kstep.1 + 1, fs[m].1)
                            &&& representable(fs[m].1)
                        }) by {
                            let m = pre_fields.len() as int;
                            lemma_object_layout(chars@, i as int, fs, m);
                            lemma_representable_fields_index(fs, m);
                        }
                    }
                    cur = p.1;
                    p.0
                },
                None => {
                    proof {
                        assert forall|fs: Seq<(Seq<char>, JsonView)>|
                            representable_fields(fs) && #[trigger] value_at(
                                chars@,
                                i as int,
                                JsonView::Object(fs),
                            ) implies false by {}
                    }
                    return None;
                },
            };
            if !(cur < n && chars[cur] == ':') {
                proof {
                    assert forall|fs: Seq<(Seq<char>, JsonView)>|
                        representable_fields(fs) && #[trigger] value_at(
                            chars@,
                            i as int,
                            JsonView::Object(fs),
                        ) implies false by {}
                }
                return None;
            }
            cur = cur + 1;
            match parse_value(chars, cur) {
                Some(p) => {
                    let ghost vstep = p;
                    fields.push((key, p.0));
                    cur = p.1;
                    proof {
                        assert forall|fs: Seq<(Seq<char>, JsonView)>|
                            representable_fields(fs) && #[trigger] value_at(
                                chars@,
                                i as int,
                                JsonView::Object(fs),
                            ) implies ({
                            let m = pre_fields.len() as int;
                            &&& field_views_of(fields@) == fs.take(m + 1)
                            &&& cur == i + 1 + fields_text(fs.take(m + 1)).len()
                            &&& (m + 1 < fs.len() ==> chars@[cur as int] == ',' && cur < n)
                            &&& (m + 1 == fs.len() ==> chars@[cur as int] == '}' && cur < n && cur
                                + 1 == i + text_of(JsonView::Object(fs)).len())
                        }) by {
                            let m = pre_fields.len() as int;
                            lemma_object_layout(chars@, i as int, fs, m);
                            lemma_representable_fields_index(fs, m);
                            assert(fields@ =~= pre_fields.push((key, vstep.0)));
                            assert(fields@.drop_last() =~= pre_fields);
                            assert(field_views_of(fields@) =~= field_views_of(pre_fields).push(
                                (key@, vstep.0@),
                            ));
                            assert(fs.take(m + 1).drop_last() =~= fs.take(m));
                            assert(fs.take(m + 1).last() == fs[m]);
                            assert(field_views_of(fields@) =~= fs.take(m + 1));
                            if m == 0 {
                                assert(fields_text(fs.take(1)) == field_text(fs.take(1).last()));
                            } else {
                                assert(fields_text(fs.take(m + 1)) == fields_text(fs.take(m))
                                    + seq![','] + field_text(fs[m]));
                            }
                        }
                    }
                },
                None => {
                    proof {
                        assert forall|fs: Seq<(Seq<char>, JsonView)>|
                            representable_fields(fs) && #[trigger] value_at(
                                chars@,
                                i as int,
                                JsonView::Object(fs),
                            ) implies false by {
                            lemma_representable_fields_index(fs, pre_fields.len() as int);
                        }
                    }
                    return None;
                },
            }
            if cur < n && chars[cur] == ',' {
                proof {
                    assert forall|fs: Seq<(Seq<char>, JsonView)>|
                        representable_fields(fs) && #[trigger] value_at(
                            chars@,
                            i as int,
                            JsonView::Object(fs),
                        ) implies fields@.len() < fs.len() by {
                        if fields@.len() as int == fs.len() {
                            assert(chars@[cur as int] == '}');
                        }
                    }
                }
                cur = cur + 1;
            } else if cur < n && chars[cur] == '}' {
                proof {
                    lemma_field_views_of(fields@);
                    assert forall|fs: Seq<(Seq<char>, JsonView)>|
                        representable_fields(fs) && #[trigger] value_at(
                            chars@,
                            i as int,
                            JsonView::Object(fs),
                        ) implies field_views_of(fields@) == fs && cur + 1 == i + text_of(
                        JsonView::Object(fs),
                    ).len() by {
                        if (fields@.len() as int) < fs.len() {
                            assert(chars@[cur as int] == ',');
                        }
                        assert(fs.take(fs.len() as int) =~= fs);
                    }
                }
                return Some((JsonValue::Object(fields), cur + 1));
            } else {
                proof {
                    assert forall|fs: Seq<(Seq<char>, JsonView)>|
                        representable_fields(fs) && #[trigger] value_at(
                            chars@,
                            i as int,
                            JsonView::Object(fs),
                        ) implies false by {}
                }
                return None;
            }
        }
    } else {
        proof {
            assert forall|vv: JsonView|
                representable(vv) && #[trigger] value_at(chars@, i as int, vv) implies (vv
                matches JsonView::Int(m) && i64::MIN <= m <= i64::MAX && value_at(
                chars@,
                i as int,
                JsonView::Int(m),
            )) by {
                lemma_value_head(chars@, i as int, vv);
            }
        }
        parse_int(chars, i)
    }
}

/// The value of one hexadecimal digit character, if it is one.
fn hex_val(c: char) -> (r: Option<u8>)
    ensures
        r matches Some(d) ==> d < 16 && hex_char(d as int) == c,
        r is None ==> forall|d: int| 0 <= d < 16 ==> hex_char(d) != c,
{
    match c {
        '0' => Some(0),
        '1' => Some(1),
        '2' => Some(2),
        '3' => Some(3),
        '4' => Some(4),
        '5' => Some(5),
        '6' => Some(6),
        '7' => Some(7),
        '8' => Some(8),
        '9' => Some(9),
        'a' => Some(10),
        'b' => Some(11),
        'c' => Some(12),
        'd' => Some(13),
        'e' => Some(14),
        'f' => Some(15),
        _ => None,
    }
}

/// The character with the given control code.
fn control_char_of(code: u8) -> (r: char)
    requires
        code < 32,
    ensures
        r as u32 == code as u32,
{
    proof {
        vstd::utf8::char_u32_cast((code as char), code as u32);
    }
    code as char
}

/// At a point of reading a quoted string: what has been consumed is the
/// escape of what has been built, so the rest of the input is the escape of
/// the remainder, then the closing quote.
proof fn lemma_string_progress(s: Seq<char>, i: int, cur: int, o: Seq<char>, t: Seq<char>)
    requires
        quoted_at(s, i, t),
        0 <= i < cur <= s.len(),
        s.subrange(i + 1, cur) == escape_text(o),
    ensures
        o.len() <= t.len(),
        t.take(o.len() as int) == o,
        cur == i + 1 + escape_text(o).len(),
        i + 2 + escape_text(t).len() <= s.len(),
        s.subrange(cur, s.len() as int) == escape_text(t.skip(o.len() as int)) + seq!['"']
            + s.subrange(i + 2 + escape_text(t).len(), s.len() as int),
{
    let et = escape_text(t);
    let q = seq!['"'] + et + seq!['"'];
    let x = s.subrange(cur, s.len() as int);
    let y = s.subrange(i + 2 + et.len(), s.len() as int);
    assert forall|k: int| 0 <= k < q.len() implies s[i + k] == q[k] by {
        assert(s.subrange(i, i + q.len())[k] == s[i + k]);
    }
    assert(s.subrange(i + 1, s.len() as int) =~= escape_text(o) + x);
    assert(y.len() == s.len() - (i + 2 + et.len()));
    assert forall|k: int| 0 <= k < s.len() - (i + 1) implies s.subrange(i + 1, s.len() as int)[k]
        == (et + seq!['"'] + y)[k] by {
        assert(s.subrange(i + 1, s.len() as int)[k] == s[i + 1 + k]);
        if k < et.len() {
            assert(q[k + 1] == et[k]);
            assert(s[i + 1 + k] == q[k + 1]);
            assert((et + seq!['"'] + y)[k] == et[k]);
        } else if k == et.len() {
            assert(q[k + 1] == '"');
            assert(s[i + 1 + k] == q[k + 1]);
            assert((et + seq!['"'] + y)[k] == '"');
        } else {
            assert((et + seq!['"'] + y)[k] == y[k - et.len() - 1]);
            assert(y[k - et.len() - 1] == s[i + 2 + et.len() + (k - et.len() - 1)]);
        }
    }
    assert(s.subrange(i + 1, s.len() as int) =~= et + seq!['"'] + y);
    lemma_escape_phase(o, t, x, y);
}

/// Whether some character's escape sequence sits at position `cur`.
spec fn escape_seq_at(s: Seq<char>, cur: int, c: char) -> bool {
    &&& escape_char(c).len() >= 2
    &&& cur + escape_char(c).len() <= s.len()
    &&& s.subrange(cur, cur + escape_char(c).len()) == escape_char(c)
}

/// Read one escape sequence at `cur`: the decoded character and the length
/// consumed. A success consumes exactly the character's escape; a failure
/// means no character's escape sits here.
fn unescape_at(chars: &Vec<char>, cur: usize) -> (r: Option<(char, usize)>)
    requires
        cur < chars@.len(),
        chars@[cur as int] == '\\',
    ensures
        match r {
            Some(p) => cur + p.1 <= chars@.len() && 2 <= p.1 && escape_char(p.0)
                == chars@.subrange(cur as int, cur + p.1),
            None => forall|c: char| !escape_seq_at(chars@, cur as int, c),
        },
{
    let n = chars.len();
    if n - cur < 2 {
        proof {
            assert forall|c: char| !escape_seq_at(chars@, cur as int, c) by {
                lemma_escape_char_shape(c);
            }
        }
        return None;
    }
    let e = chars[cur + 1];
    proof {
        assert forall|c: char| escape_seq_at(chars@, cur as int, c) implies escape_char(c)[1]
            == e by {
            assert(chars@.subrange(cur as int, cur + escape_char(c).len())[1] == chars@[cur + 1]);
        }
    }
    if e == '"' {
        proof {
            assert(escape_char('"') =~= chars@.subrange(cur as int, cur + 2));
        }
        Some(('"', 2))
    } else if e == '\\' {
        proof {
            assert(escape_char('\\') =~= chars@.subrange(cur as int, cur + 2));
        }
        Some(('\\', 2))
    } else if e == 'n' {
        proof {
            assert(escape_char('\n') =~= chars@.subrange(cur as int, cur + 2));
        }
        Some(('\n', 2))
    } else if e == 'r' {
        proof {
            assert(escape_char('\r') =~= chars@.subrange(cur as int, cur + 2));
        }
        Some(('\r', 2))
    } else if e == 't' {
        proof {
            assert(escape_char('\t') =~= chars@.subrange(cur as int, cur + 2));
        }
        Some(('\t', 2))
    } else if e == 'u' {
        proof {
            assert forall|c: char| escape_seq_at(chars@, cur as int, c) implies escape_char(
                c,
            ).len() == 6 && (c as u32) < 32 && c != '\n' && c != '\r' && c != '\t' by {
                lemma_escape_char_shape(c);
            }
            assert forall|c: char, k: int|
                escape_seq_at(chars@, cur as int, c) && 0 <= k < 6 implies chars@[cur + k]
                == escape_char(c)[k] by {
                lemma_escape_char_shape(c);
                assert(chars@.subrange(cur as int, cur + escape_char(c).len())[k] == chars@[cur
                    + k]);
            }
        }
        if n - cur < 6 {
            return None;
        }
        if !(chars[cur + 2] == '0' && chars[cur + 3] == '0') {
            return None;
        }
        let hi = match hex_val(chars[cur + 4]) {
            Some(d) => d,
            None => {
                proof {
                    assert forall|c: char| !escape_seq_at(chars@, cur as int, c) by {
                        if escape_seq_at(chars@, cur as int, c) {
                            lemma_escape_char_shape(c);
                        }
                    }
                }
                return None;
            },
        };
        let lo = match hex_val(chars[cur + 5]) {
            Some(d) => d,
            None => {
                proof {
                    assert forall|c: char| !escape_seq_at(chars@, cur as int, c) by {
                        if escape_seq_at(chars@, cur as int, c) {
                            lemma_escape_char_shape(c);
                        }
                    }
                }
                return None;
            },
        };
        let code: u8 = hi * 16 + lo;
        proof {
            assert(hi as int == code as int / 16 && lo as int == code as int % 16) by (nonlinear_arith)
                requires
                    hi < 16 && lo < 16 && code == hi * 16 + lo,
            ;
            assert forall|d1: int, d2: int|
                0 <= d1 < 16 && 0 <= d2 < 16 && hex_char(d1) == hex_char(d2) implies d1 == d2 by {}
            assert forall|c: char| escape_seq_at(chars@, cur as int, c) implies c as u32
                == code as u32 by {
                lemma_escape_char_shape(c);
                assert(chars@[cur + 4] == hex_char(c as u32 as int / 16));
                assert(chars@[cur + 5] == hex_char(c as u32 as int % 16));
            }
        }
        if code >= 32 || code == 9 || code == 10 || code == 13 {
            proof {
                assert('\t' as u32 == 9 && '\n' as u32 == 10 && '\r' as u32 == 13);
                assert forall|c: char| !escape_seq_at(chars@, cur as int, c) by {
                    if escape_seq_at(chars@, cur as int, c) {
                        lemma_escape_char_shape(c);
                        vstd::utf8::char_u32_cast(c, c as u32);
                        vstd::utf8::char_u32_cast('\t', 9);
                        vstd::utf8::char_u32_cast('\n', 10);
                        vstd::utf8::char_u32_cast('\r', 13);
                    }
                }
            }
            return None;
        }
        let d = control_char_of(code);
        proof {
            vstd::utf8::char_u32_cast(d, code as u32);
            assert('\t' as u32 == 9 && '\n' as u32 == 10 && '\r' as u32 == 13);
            vstd::utf8::char_u32_cast('\t', 9);
            vstd::utf8::char_u32_cast('\n', 10);
            vstd::utf8::char_u32_cast('\r', 13);
            assert(d != '\n' && d != '\r' && d != '\t');
            assert((d as u32) < 32 && d != '"' && d != '\\');
            assert(escape_char(d) =~= chars@.subrange(cur as int, cur + 6));
        }
        Some((d, 6))
    } else {
        proof {
            assert forall|c: char| !escape_seq_at(chars@, cur as int, c) by {
                if escape_seq_at(chars@, cur as int, c) {
                    lemma_escape_char_shape(c);
                }
            }
        }
        None
    }
}

/// Parse a quoted, escaped string from position `i`. What is consumed is by
/// construction exactly the escape of what is built, so the parse is also
/// complete: every quoted canonical string is read back, to the character.
#[verifier::loop_isolation(false)]
fn parse_string(chars: &Vec<char>, i: usize) -> (r: Option<(String, usize)>)
    requires
        i <= chars@.len(),
    ensures
        r matches Some(p) ==> i < p.1 <= chars@.len(),
        forall|t: Seq<char>|
            quoted_at(chars@, i as int, t) ==> (r matches Some(p) && p.0@ == t && p.1 == i
                + escape_text(t).len() + 2),
{
    let n = chars.len();
    if !(i < n && chars[i] == '"') {
        proof {
            assert forall|t: Seq<char>| quoted_at(chars@, i as int, t) implies false by {
                let q = seq!['"'] + escape_text(t) + seq!['"'];
                assert(chars@.subrange(i as int, i + q.len())[0] == chars@[i as int]);
            }
        }
        return None;
    }
    let mut out = String::new();
    let mut cur: usize = i + 1;
    proof {
        assert(chars@.subrange(i + 1, i + 1) =~= Seq::<char>::empty());
    }
    loop
        invariant
            i < cur <= n,
            chars@.subrange(i + 1, cur as int) == escape_text(out@),
        decreases n - cur,
    {
        if cur >= n {
            proof {
                assert forall|t: Seq<char>| quoted_at(chars@, i as int, t) implies false by {
                    lemma_string_progress(chars@, i as int, cur as int, out@, t);
                    assert(chars@.subrange(cur as int, n as int).len() == 0);
                    assert((escape_text(t.skip(out@.len() as int)) + seq!['"'] + chars@.subrange(
                        i + 2 + escape_text(t).len(),
                        n as int,
                    )).len() >= 1);
                }
            }
            return None;
        }
        let ghost pre = out@;
        let c = chars[cur];
        proof {
            assert(chars@.subrange(cur as int, n as int)[0] == c);
        }
        if c == '"' {
            proof {
                assert forall|t: Seq<char>| quoted_at(chars@, i as int, t) implies out@ == t && cur
                    + 1 == i + escape_text(t).len() + 2 by {
                    lemma_string_progress(chars@, i as int, cur as int, out@, t);
                    let t2 = t.skip(out@.len() as int);
                    if t2.len() > 0 {
                        lemma_escape_text_first(t2);
                        lemma_escape_char_shape(t2[0]);
                        assert((escape_text(t2) + seq!['"'] + chars@.subrange(
                            i + 2 + escape_text(t).len(),
                            n as int,
                        ))[0] == escape_char(t2[0])[0]);
                        assert(false);
                    }
                    assert(t =~= out@);
                }
            }
            return Some((out, cur + 1));
        } else if c == '\\' {
            proof {
                assert forall|t: Seq<char>| quoted_at(chars@, i as int, t) implies escape_seq_at(
                    chars@,
                    cur as int,
                    t.skip(out@.len() as int)[0],
                ) by {
                    lemma_string_progress(chars@, i as int, cur as int, out@, t);
                    let t2 = t.skip(out@.len() as int);
                    let y = chars@.subrange(i + 2 + escape_text(t).len(), n as int);
                    let tail = escape_text(t2) + seq!['"'] + y;
                    if t2.len() == 0 {
                        assert(tail[0] == '"');
                        assert(false);
                    }
                    lemma_escape_text_first(t2);
                    lemma_escape_char_shape(t2[0]);
                    let ec = escape_char(t2[0]);
                    assert(tail =~= ec + (escape_text(t2.drop_first()) + seq!['"'] + y));
                    assert(tail[0] == ec[0]);
                    assert forall|k: int| 0 <= k < ec.len() implies chars@.subrange(
                        cur as int,
                        cur + ec.len(),
                    )[k] == ec[k] by {
                        assert(chars@.subrange(cur as int, n as int)[k] == chars@[cur + k]);
                        assert(chars@.subrange(cur as int, cur + ec.len())[k] == chars@[cur + k]);
                        assert(tail[k] == ec[k]);
                    }
                    assert(chars@.subrange(cur as int, cur + ec.len()) =~= ec);
                }
            }
            match unescape_at(chars, cur) {
                Some(step) => {
                    let (d, len) = step;
                    push_char(&mut out, d);
                    proof {
                        assert(out@.drop_last() =~= pre);
                        assert(escape_text(out@) =~= escape_text(pre) + escape_char(d));
                        assert(chars@.subrange(i + 1, cur + len) =~= escape_text(pre)
                            + chars@.subrange(cur as int, cur + len));
                    }
                    cur = cur + len;
                },
                None => {
                    proof {
                        assert forall|t: Seq<char>| quoted_at(chars@, i as int, t) implies false by {
                            assert(escape_seq_at(chars@, cur as int, t.skip(out@.len() as int)[0]));
                        }
                    }
                    return None;
                },
            }
        } else {
            if (c as u32) < 32 {
                proof {
                    assert forall|t: Seq<char>| quoted_at(chars@, i as int, t) implies false by {
                        lemma_string_progress(chars@, i as int, cur as int, out@, t);
                        let t2 = t.skip(out@.len() as int);
                        let tail = escape_text(t2) + seq!['"'] + chars@.subrange(
                            i + 2 + escape_text(t).len(),
                            n as int,
                        );
                        if t2.len() == 0 {
                            assert(tail[0] == '"');
                        } else {
                            lemma_escape_text_first(t2);
                            lemma_escape_char_shape(t2[0]);
                            assert(tail[0] == escape_char(t2[0])[0]);
                        }
                    }
                }
                return None;
            }
            push_char(&mut out, c);
            proof {
                assert(out@.drop_last() =~= pre);
                assert(escape_char(c) =~= seq![c]);
                assert(escape_text(out@) =~= escape_text(pre) + seq![c]);
                assert(chars@.subrange(i + 1, cur + 1) =~= escape_text(pre) + seq![c]);
            }
            cur = cur + 1;
        }
    }
}

/// The magnitude of an integer.
pub open spec fn abs_of(m: int) -> int {
    if m < 0 {
        -m
    } else {
        m
    }
}

/// Where an integer's digits begin: after the sign when there is one.
pub open spec fn digits_start(i: int, m: int) -> int {
    if m < 0 {
        i + 1
    } else {
        i
    }
}

/// Where an integer's canonical text sits at `i`: the optional sign, then
/// exactly the digits of its magnitude, ended by the text's end or a
/// non-digit.
proof fn lemma_int_at(s: Seq<char>, i: int, m: int)
    requires
        value_at(s, i, JsonView::Int(m)),
    ensures
        m < 0 ==> s[i] == '-',
        m >= 0 ==> s[i] != '-',
        digits_start(i, m) + dec_text(abs_of(m)).len() <= s.len(),
        forall|k: int|
            0 <= k < dec_text(abs_of(m)).len() ==> s[digits_start(i, m) + k] == #[trigger] dec_text(
                abs_of(m),
            )[k],
        digits_start(i, m) + dec_text(abs_of(m)).len() == s.len() || !is_digit_char(
            s[digits_start(i, m) + dec_text(abs_of(m)).len()],
        ),
        forall|k: int|
            0 <= k < dec_text(abs_of(m)).len() ==> is_digit_char(
                #[trigger] dec_text(abs_of(m))[k],
            ),
        i + text_of(JsonView::Int(m)).len() == digits_start(i, m) + dec_text(abs_of(m)).len(),
{
    let t = int_text(m);
    let mm = abs_of(m);
    lemma_dec_text_digits(mm);
    lemma_digit_not_delimiter();
    assert forall|k: int| 0 <= k < t.len() implies s[i + k] == t[k] by {
        assert(s.subrange(i, i + t.len())[k] == s[i + k]);
    }
    assert forall|k: int| 0 <= k < dec_text(mm).len() implies is_digit_char(
        #[trigger] dec_text(mm)[k],
    ) by {}
    if m < 0 {
        assert(t =~= seq!['-'] + dec_text(mm));
        assert(s[i + 0] == t[0]);
        assert(t[0] == '-');
        assert forall|k: int| 0 <= k < dec_text(mm).len() implies s[i + 1 + k] == #[trigger] dec_text(
            mm,
        )[k] by {
            assert(t[k + 1] == dec_text(mm)[k]);
        }
    } else {
        assert(s[i + 0] == t[0]);
        assert(is_digit_char(dec_text(mm)[0]));
    }
}

/// Parse a decimal integer from position `i`: sound in that it only consumes
/// sign and digits, and complete for the canonical text of every integer the
/// machine word can hold.
#[verifier::loop_isolation(false)]
fn parse_int(chars: &Vec<char>, i: usize) -> (r: Option<(JsonValue, usize)>)
    requires
        i <= chars@.len(),
    ensures
        r matches Some(p) ==> i < p.1 <= chars@.len(),
        forall|m: int|
            i64::MIN <= m <= i64::MAX && #[trigger] value_at(chars@, i as int, JsonView::Int(m))
                ==> (r matches Some(p) && p.0@ == JsonView::Int(m) && p.1 == i + int_text(
                m,
            ).len()),
{
    let n = chars.len();
    if i >= n {
        proof {
            assert forall|m: int|
                i64::MIN <= m <= i64::MAX && #[trigger] value_at(chars@, i as int, JsonView::Int(m)) implies false by {
                lemma_text_nonempty(JsonView::Int(m));
            }
        }
        return None;
    }
    let mut cur: usize = i;
    let negative = chars[cur] == '-';
    if negative {
        cur = cur + 1;
    }
    let ghost dstart: int = cur as int;
    let mut magnitude: u64 = 0;
    let mut any: bool = false;
    proof {
        assert(chars@.subrange(dstart, dstart) =~= Seq::<char>::empty());
    }
    while cur < n
        invariant
            i <= dstart <= cur <= n,
            dstart == if negative {
                i + 1
            } else {
                i as int
            },
            negative ==> chars@[i as int] == '-',
            !negative ==> chars@[i as int] != '-',
            any <==> cur > dstart,
            magnitude as int == digits_val(chars@.subrange(dstart, cur as int)),
            forall|k: int| dstart <= k < cur ==> is_digit_char(chars@[k]),
        decreases n - cur,
    {
        let d = match digit_of(chars[cur]) {
            Some(d) => d,
            None => {
                break ;
            },
        };
        proof {
            assert forall|m: int|
                i64::MIN <= m <= i64::MAX && #[trigger] value_at(chars@, i as int, JsonView::Int(m)) implies ({
                let mm: int = if m < 0 {
                    -m
                } else {
                    m
                };
                &&& (m < 0) == negative
                &&& cur - dstart < dec_text(mm).len()
                &&& magnitude as int * 10 + d <= mm
                &&& mm <= 9223372036854775808
            }) by {
                lemma_int_at(chars@, i as int, m);
                let mm: int = abs_of(m);
                let run = dec_text(abs_of(m));
                lemma_dec_text_digits(mm);
                assert((m < 0) == negative);
                assert(digits_start(i as int, m) == dstart);
                assert forall|k: int| 0 <= k < run.len() implies chars@[dstart + k]
                    == #[trigger] run[k] by {
                    assert(chars@[digits_start(i as int, m) + k] == dec_text(abs_of(m))[k]);
                }
                if cur - dstart >= run.len() {
                    if dstart + run.len() == cur {
                        assert(is_digit_char(chars@[cur as int]));
                    } else {
                        assert(is_digit_char(chars@[dstart + run.len()]));
                    }
                    assert(false);
                }
                let consumed = chars@.subrange(dstart, cur as int);
                assert(consumed.push(chars@[cur as int]) =~= run.take(cur - dstart + 1));
                assert(run =~= run.take(cur - dstart + 1) + run.skip(cur - dstart + 1));
                lemma_digits_val_prefix(run.take(cur - dstart + 1), run.skip(cur - dstart + 1));
                lemma_digits_val_dec_text(mm);
                assert(run.take(cur - dstart + 1).drop_last() =~= consumed);
                assert(digit_char(d as int) == chars@[cur as int]);
                assert(char_digit(digit_char(d as int)) == d as int);
                assert(digits_val(run.take(cur - dstart + 1)) == magnitude as int * 10 + d);
            }
        }
        if magnitude > 1844674407370955161u64 {
            return None;
        }
        let scaled = magnitude * 10;
        if scaled > u64::MAX - (d as u64) {
            return None;
        }
        let ghost pre = chars@.subrange(dstart, cur as int);
        magnitude = scaled + (d as u64);
        any = true;
        cur = cur + 1;
        proof {
            assert(chars@.subrange(dstart, cur as int) =~= pre.push(chars@[cur - 1]));
            assert(digit_char(d as int) == chars@[cur - 1]);
            assert(char_digit(digit_char(d as int)) == d as int);
            assert(pre.push(chars@[cur - 1]).drop_last() =~= pre);
            assert(pre.push(chars@[cur - 1]).last() == chars@[cur - 1]);
            assert(digits_val(pre.push(chars@[cur - 1])) == digits_val(pre) * 10 + char_digit(
                chars@[cur - 1],
            ));
        }
    }
    proof {
        assert forall|m: int|
            i64::MIN <= m <= i64::MAX && #[trigger] value_at(chars@, i as int, JsonView::Int(m))
            implies ({
            let mm: int = if m < 0 {
                -m
            } else {
                m
            };
            &&& (m < 0) == negative
            &&& cur - dstart == dec_text(mm).len()
            &&& magnitude as int == mm
            &&& any
        }) by {
            lemma_int_at(chars@, i as int, m);
            let mm: int = abs_of(m);
            let run = dec_text(abs_of(m));
            lemma_dec_text_digits(mm);
            assert((m < 0) == negative);
            assert(digits_start(i as int, m) == dstart);
            assert forall|k: int| 0 <= k < run.len() implies chars@[dstart + k]
                == #[trigger] run[k] by {
                assert(chars@[digits_start(i as int, m) + k] == dec_text(abs_of(m))[k]);
            }
            if cur - dstart > run.len() {
                if dstart + run.len() == n {
                    assert(false);
                } else {
                    assert(is_digit_char(chars@[dstart + run.len()]));
                    assert(false);
                }
            }
            if cur - dstart < run.len() {
                assert(run[cur - dstart] == chars@[cur as int]);
                assert(is_digit_char(chars@[cur as int]));
                assert(false);
            }
            assert(chars@.subrange(dstart, cur as int) =~= run);
            lemma_digits_val_dec_text(mm);
        }
    }
    if !any {
        return None;
    }
    if negative {
        if magnitude > 9223372036854775808u64 {
            return None;
        }
        if magnitude == 9223372036854775808u64 {
            Some((JsonValue::Int(i64::MIN), cur))
        } else {
            Some((JsonValue::Int(-(magnitude as i64)), cur))
        }
    } else {
        if magnitude > 9223372036854775807u64 {
            return None;
        }
        Some((JsonValue::Int(magnitude as i64), cur))
    }
}

/// Reading escaped text in step: what has been decoded so far is a prefix of
/// whatever full string the input can quote, and the rest of the input is the
/// escape of the remainder.
proof fn lemma_escape_phase(o: Seq<char>, t: Seq<char>, x: Seq<char>, y: Seq<char>)
    requires
        escape_text(o) + x == escape_text(t) + seq!['"'] + y,
    ensures
        o.len() <= t.len(),
        t.take(o.len() as int) == o,
        x == escape_text(t.skip(o.len() as int)) + seq!['"'] + y,
    decreases o.len(),
{
    if o.len() == 0 {
        assert(escape_text(o) + x =~= x);
        assert(t.take(0) =~= o);
        assert(t.skip(0) =~= t);
    } else {
        let c1 = o[0];
        lemma_escape_text_first(o);
        lemma_escape_char_shape(c1);
        if t.len() == 0 {
            assert(escape_text(t) + seq!['"'] + y =~= seq!['"'] + y);
            assert((escape_text(o) + x)[0] == escape_char(c1)[0]);
            assert((seq!['"'] + y)[0] == '"');
            assert(false);
        } else {
            let c2 = t[0];
            lemma_escape_text_first(t);
            lemma_escape_char_shape(c2);
            let u1 = escape_text(o.drop_first()) + x;
            let u2 = escape_text(t.drop_first()) + seq!['"'] + y;
            assert(escape_text(o) + x =~= escape_char(c1) + u1);
            assert(escape_text(t) + seq!['"'] + y =~= escape_char(c2) + u2);
            let w = escape_char(c1) + u1;
            assert(w[0] == escape_char(c1)[0]);
            assert(w[0] == escape_char(c2)[0]);
            if escape_char(c1).len() == 1 && escape_char(c2).len() == 1 {
                assert(c1 == c2);
            } else if escape_char(c1).len() == 1 {
                assert(w[0] == c1 && c1 != '\\');
                assert(w[0] == '\\');
            } else if escape_char(c2).len() == 1 {
                assert(w[0] == c2 && c2 != '\\');
                assert(w[0] == '\\');
            } else if escape_char(c1).len() != escape_char(c2).len() {
                assert(w[1] == escape_char(c1)[1]);
                assert(w[1] == escape_char(c2)[1]);
                assert((escape_char(c1)[1] == 'u') != (escape_char(c2)[1] == 'u'));
            } else if escape_char(c1).len() == 2 {
                assert(w[1] == escape_char(c1)[1]);
                assert(w[1] == escape_char(c2)[1]);
                assert(c1 == c2);
            } else {
                assert(w[4] == escape_char(c1)[4]);
                assert(w[5] == escape_char(c1)[5]);
                assert(w[4] == escape_char(c2)[4]);
                assert(w[5] == escape_char(c2)[5]);
                assert forall|d1: int, d2: int|
                    0 <= d1 < 16 && 0 <= d2 < 16 && hex_char(d1) == hex_char(d2) implies d1
                    == d2 by {}
                assert(c1 as u32 == c2 as u32);
                vstd::utf8::char_u32_cast(c1, c1 as u32);
                vstd::utf8::char_u32_cast(c2, c2 as u32);
                assert(c1 == c2);
            }
            lemma_append_eq_parts(escape_char(c1), escape_char(c2), u1, u2);
            lemma_escape_phase(o.drop_first(), t.drop_first(), x, y);
            assert(t.take(o.len() as int) =~= seq![c2] + t.drop_first().take(o.len() - 1));
            assert(o =~= seq![c1] + o.drop_first());
            assert(t.skip(o.len() as int) =~= t.drop_first().skip(o.len() - 1));
        }
    }
}

/// Whether the character is a decimal digit.
pub open spec fn is_digit_char(c: char) -> bool {
    exists|d: int| 0 <= d < 10 && digit_char(d) == c
}

/// Whether the sequence begins with a decimal digit.
pub open spec fn starts_with_digit(s: Seq<char>) -> bool {
    s.len() > 0 && is_digit_char(s[0])
}

/// The canonical text of the value sits at position `i` of `s`, and is not
/// continued by a further digit — the one way a value's text can be extended
/// in place.
pub open spec fn value_at(s: Seq<char>, i: int, v: JsonView) -> bool {
    let t = text_of(v);
    &&& 0 <= i
    &&& i + t.len() <= s.len()
    &&& s.subrange(i, i + t.len()) == t
    &&& (i + t.len() == s.len() || !is_digit_char(s[i + t.len()]))
}

/// A quoted, escaped string sits at position `i` of `s`.
pub open spec fn quoted_at(s: Seq<char>, i: int, t: Seq<char>) -> bool {
    let q = seq!['"'] + escape_text(t) + seq!['"'];
    &&& 0 <= i
    &&& i + q.len() <= s.len()
    &&& s.subrange(i, i + q.len()) == q
}

/// Every integer in the value fits the machine's signed word: the shapes the
/// library itself can hold.
pub open spec fn representable(v: JsonView) -> bool
    decreases v,
{
    match v {
        JsonView::Int(m) => i64::MIN <= m <= i64::MAX,
        JsonView::Array(items) => representable_seq(items),
        JsonView::Object(fields) => representable_fields(fields),
        _ => true,
    }
}

/// Every element of the sequence is representable.
pub open spec fn representable_seq(items: Seq<JsonView>) -> bool
    decreases items,
{
    items.len() == 0 || (representable_seq(items.drop_last()) && representable(items.last()))
}

/// Every field value of the sequence is representable.
pub open spec fn representable_fields(fields: Seq<(Seq<char>, JsonView)>) -> bool
    decreases fields,
{
    fields.len() == 0 || (representable_fields(fields.drop_last()) && representable(
        fields.last().1,
    ))
}

/// Each element of a representable sequence is representable.
proof fn lemma_representable_seq_index(items: Seq<JsonView>, k: int)
    requires
        representable_seq(items),
        0 <= k < items.len(),
    ensures
        representable(items[k]),
    decreases items,
{
    if k < items.len() - 1 {
        lemma_representable_seq_index(items.drop_last(), k);
        assert(items.drop_last()[k] == items[k]);
    }
}

/// Each field value of a representable field sequence is representable.
proof fn lemma_representable_fields_index(fields: Seq<(Seq<char>, JsonView)>, k: int)
    requires
        representable_fields(fields),
        0 <= k < fields.len(),
    ensures
        representable(fields[k].1),
    decreases fields,
{
    if k < fields.len() - 1 {
        lemma_representable_fields_index(fields.drop_last(), k);
        assert(fields.drop_last()[k] == fields[k]);
    }
}

/// The view of every value the library can hold is representable.
pub proof fn lemma_value_representable(v: &JsonValue)
    ensures
        representable(v@),
    decreases v,
{
    match v {
        JsonValue::Array(items) => {
            lemma_seq_representable(items@);
        },
        JsonValue::Object(fields) => {
            lemma_field_seq_representable(fields@);
        },
        _ => {},
    }
}

proof fn lemma_seq_representable(s: Seq<JsonValue>)
    ensures
        representable_seq(views_of(s)),
    decreases s,
{
    if s.len() > 0 {
        lemma_seq_representable(s.drop_last());
        lemma_value_representable(&s.last());
        assert(views_of(s).drop_last() =~= views_of(s.drop_last()));
        assert(views_of(s).last() == s.last()@);
    }
}

proof fn lemma_field_seq_representable(s: Seq<(String, JsonValue)>)
    ensures
        representable_fields(field_views_of(s)),
    decreases s,
{
    if s.len() > 0 {
        lemma_field_seq_representable(s.drop_last());
        lemma_value_representable(&s.last().1);
        assert(field_views_of(s).drop_last() =~= field_views_of(s.drop_last()));
        assert(field_views_of(s).last() == (s.last().0@, s.last().1@));
    }
}

/// The numeric value of a digit character, zero for any other.
pub open spec fn char_digit(c: char) -> int {
    if c == '1' {
        1
    } else if c == '2' {
        2
    } else if c == '3' {
        3
    } else if c == '4' {
        4
    } else if c == '5' {
        5
    } else if c == '6' {
        6
    } else if c == '7' {
        7
    } else if c == '8' {
        8
    } else if c == '9' {
        9
    } else {
        0
    }
}

/// The number a run of digit characters denotes.
pub open spec fn digits_val(s: Seq<char>) -> int
    decreases s.len(),
{
    if s.len() == 0 {
        0
    } else {
        digits_val(s.drop_last()) * 10 + char_digit(s.last())
    }
}

/// A run's value is never negative.
proof fn lemma_digits_val_nonneg(s: Seq<char>)
    ensures
        digits_val(s) >= 0,
    decreases s.len(),
{
    if s.len() > 0 {
        lemma_digits_val_nonneg(s.drop_last());
    }
}

/// The digits of an integer denote it.
proof fn lemma_digits_val_dec_text(n: int)
    requires
        n >= 0,
    ensures
        digits_val(dec_text(n)) == n,
    decreases n,
{
    assert forall|d: int| 0 <= d < 10 implies char_digit(digit_char(d)) == d by {}
    if n < 10 {
        assert(dec_text(n) == seq![digit_char(n)]);
        assert(dec_text(n).drop_last() =~= Seq::<char>::empty());
        assert(dec_text(n).last() == digit_char(n));
        assert(char_digit(digit_char(n)) == n);
        assert(digits_val(dec_text(n)) == digits_val(Seq::<char>::empty()) * 10 + char_digit(
            digit_char(n),
        ));
    } else {
        lemma_digits_val_dec_text(n / 10);
        assert(dec_text(n) == dec_text(n / 10).push(digit_char(n % 10)));
        assert(dec_text(n).drop_last() =~= dec_text(n / 10));
        assert(dec_text(n).last() == digit_char(n % 10));
        assert(char_digit(digit_char(n % 10)) == n % 10);
        assert(digits_val(dec_text(n)) == (n / 10) * 10 + n % 10);
        assert((n / 10) * 10 + n % 10 == n) by (nonlinear_arith);
    }
}

/// Extending a run can only grow its value.
proof fn lemma_digits_val_prefix(s: Seq<char>, u: Seq<char>)
    ensures
        digits_val(s) <= digits_val(s + u),
    decreases u.len(),
{
    if u.len() == 0 {
        assert(s + u =~= s);
    } else {
        lemma_digits_val_prefix(s, u.drop_last());
        assert((s + u).drop_last() =~= s + u.drop_last());
        lemma_digits_val_nonneg(s + u.drop_last());
    }
}

/// The canonical text of a value is never empty.
proof fn lemma_text_nonempty(v: JsonView)
    ensures
        text_of(v).len() > 0,
{
    match v {
        JsonView::Int(i) => {
            if i >= 0 {
                lemma_dec_text_digits(i);
            } else {
                lemma_dec_text_digits(-i);
            }
        },
        _ => {},
    }
}

/// The digits of a non-negative integer: every character is a digit, and
/// there is at least one.
proof fn lemma_dec_text_digits(n: int)
    requires
        n >= 0,
    ensures
        dec_text(n).len() > 0,
        forall|k: int|
            0 <= k < dec_text(n).len() ==> exists|d: int|
                0 <= d < 10 && digit_char(d) == #[trigger] dec_text(n)[k],
    decreases n,
{
    if n < 10 {
        assert(dec_text(n) == seq![digit_char(n)]);
        assert(0 <= n < 10 && digit_char(n) == dec_text(n)[0]);
    } else {
        lemma_dec_text_digits(n / 10);
        let m = dec_text(n / 10);
        assert forall|k: int| 0 <= k < dec_text(n).len() implies exists|d: int|
            0 <= d < 10 && digit_char(d) == #[trigger] dec_text(n)[k] by {
            if k < m.len() {
                assert(dec_text(n)[k] == m[k]);
            } else {
                assert(0 <= n % 10 < 10 && digit_char(n % 10) == dec_text(n)[k]);
            }
        }
    }
}

/// Two equal concatenations with equally long first parts agree part by
/// part.
proof fn lemma_append_eq_parts(a: Seq<char>, b: Seq<char>, r1: Seq<char>, r2: Seq<char>)
    requires
        a.len() == b.len(),
        a + r1 == b + r2,
    ensures
        a == b,
        r1 == r2,
{
    assert forall|k: int| 0 <= k < a.len() implies a[k] == b[k] by {
        assert((a + r1)[k] == a[k]);
        assert((b + r2)[k] == b[k]);
    }
    assert(a =~= b);
    assert((a + r1).len() == a.len() + r1.len());
    assert((b + r2).len() == b.len() + r2.len());
    assert((a + r1).len() == (b + r2).len());
    assert(r1.len() == r2.len());
    assert forall|k: int| 0 <= k < r1.len() implies r1[k] == r2[k] by {
        assert((a + r1)[a.len() + k] == r1[k]);
        assert((b + r2)[b.len() + k] == r2[k]);
    }
    assert(r1 =~= r2);
}

/// Two equal concatenations whose first parts are runs of digits and whose
/// rests start with none have equally long first parts.
proof fn lemma_digit_runs_align(a: Seq<char>, b: Seq<char>, r1: Seq<char>, r2: Seq<char>)
    requires
        a + r1 == b + r2,
        forall|k: int|
            0 <= k < a.len() ==> exists|d: int| 0 <= d < 10 && digit_char(d) == #[trigger] a[k],
        forall|k: int|
            0 <= k < b.len() ==> exists|d: int| 0 <= d < 10 && digit_char(d) == #[trigger] b[k],
        !starts_with_digit(r1),
        !starts_with_digit(r2),
    ensures
        a.len() == b.len(),
{
    if a.len() < b.len() {
        assert((a + r1)[a.len() as int] == r1[0]);
        assert((b + r2)[a.len() as int] == b[a.len() as int]);
        assert(starts_with_digit(r1));
    } else if b.len() < a.len() {
        assert((b + r2)[b.len() as int] == r2[0]);
        assert((a + r1)[b.len() as int] == a[b.len() as int]);
        assert(starts_with_digit(r2));
    }
}

/// Equal digit renderings come from the same non-negative integer.
proof fn lemma_dec_text_injective(n1: int, n2: int)
    requires
        n1 >= 0,
        n2 >= 0,
        dec_text(n1) == dec_text(n2),
    ensures
        n1 == n2,
    decreases n1,
{
    lemma_dec_text_digits(n1);
    lemma_dec_text_digits(n2);
    assert forall|d1: int, d2: int|
        0 <= d1 < 10 && 0 <= d2 < 10 && digit_char(d1) == digit_char(d2) implies d1 == d2 by {}
    if n1 < 10 && n2 < 10 {
        assert(dec_text(n1)[0] == digit_char(n1));
        assert(dec_text(n2)[0] == digit_char(n2));
    } else if n1 < 10 {
        assert(dec_text(n2).len() == dec_text(n2 / 10).len() + 1);
        lemma_dec_text_digits(n2 / 10);
    } else if n2 < 10 {
        assert(dec_text(n1).len() == dec_text(n1 / 10).len() + 1);
        lemma_dec_text_digits(n1 / 10);
    } else {
        assert(dec_text(n1).last() == digit_char(n1 % 10));
        assert(dec_text(n2).last() == digit_char(n2 % 10));
        assert(n1 % 10 == n2 % 10);
        assert(dec_text(n1).drop_last() =~= dec_text(n1 / 10));
        assert(dec_text(n2).drop_last() =~= dec_text(n2 / 10));
        lemma_dec_text_injective(n1 / 10, n2 / 10);
    }
}

/// A digit rendering followed by a non-digit is read back in only one way.
proof fn lemma_unique_dec(n1: int, n2: int, r1: Seq<char>, r2: Seq<char>)
    requires
        n1 >= 0,
        n2 >= 0,
        dec_text(n1) + r1 == dec_text(n2) + r2,
        !starts_with_digit(r1),
        !starts_with_digit(r2),
    ensures
        n1 == n2,
        r1 == r2,
{
    lemma_dec_text_digits(n1);
    lemma_dec_text_digits(n2);
    lemma_digit_runs_align(dec_text(n1), dec_text(n2), r1, r2);
    lemma_append_eq_parts(dec_text(n1), dec_text(n2), r1, r2);
    lemma_dec_text_injective(n1, n2);
}

/// An integer rendering followed by a non-digit is read back in only one
/// way.
proof fn lemma_unique_int(i1: int, i2: int, r1: Seq<char>, r2: Seq<char>)
    requires
        int_text(i1) + r1 == int_text(i2) + r2,
        !starts_with_digit(r1),
        !starts_with_digit(r2),
    ensures
        i1 == i2,
        r1 == r2,
{
    assert forall|d: int| 0 <= d < 10 implies digit_char(d) != '-' by {}
    if i1 < 0 && i2 < 0 {
        assert(int_text(i1) + r1 =~= seq!['-'] + (dec_text(-i1) + r1));
        assert(int_text(i2) + r2 =~= seq!['-'] + (dec_text(-i2) + r2));
        lemma_append_eq_parts(seq!['-'], seq!['-'], dec_text(-i1) + r1, dec_text(-i2) + r2);
        lemma_unique_dec(-i1, -i2, r1, r2);
    } else if i1 >= 0 && i2 >= 0 {
        lemma_unique_dec(i1, i2, r1, r2);
    } else if i1 < 0 {
        lemma_dec_text_digits(i2);
        assert((int_text(i1) + r1)[0] == '-');
        assert((int_text(i2) + r2)[0] == dec_text(i2)[0]);
    } else {
        lemma_dec_text_digits(i1);
        assert((int_text(i2) + r2)[0] == '-');
        assert((int_text(i1) + r1)[0] == dec_text(i1)[0]);
    }
}

/// The first character of a value's text names its shape.
proof fn lemma_head_char(v: JsonView)
    ensures
        text_of(v).len() > 0,
        (match v {
            JsonView::Null => text_of(v)[0] == 'n',
            JsonView::Bool(b) => text_of(v)[0] == (if b {
                't'
            } else {
                'f'
            }),
            JsonView::Int(i) => if i < 0 {
                text_of(v)[0] == '-'
            } else {
                exists|d: int| 0 <= d < 10 && digit_char(d) == text_of(v)[0]
            },
            JsonView::Text(_) => text_of(v)[0] == '"',
            JsonView::Array(_) => text_of(v)[0] == '[',
            JsonView::Object(_) => text_of(v)[0] == '{',
        }),
{
    lemma_text_nonempty(v);
    match v {
        JsonView::Int(i) => {
            if i >= 0 {
                lemma_dec_text_digits(i);
            }
        },
        _ => {},
    }
}

/// One escaped character: its first output character is a backslash exactly
/// when the character needs an escape, and is the character itself otherwise;
/// the second character tells the two-character escapes from the code-point
/// form, whose last two characters are the hexadecimal code.
proof fn lemma_escape_char_shape(c: char)
    ensures
        escape_char(c).len() == 1 || escape_char(c).len() == 2 || escape_char(c).len() == 6,
        escape_char(c).len() >= 2 ==> escape_char(c)[0] == '\\',
        escape_char(c).len() == 1 ==> escape_char(c)[0] == c && c != '\\' && c != '"' && (
        c as u32) >= 32,
        escape_char(c).len() == 2 ==> escape_char(c)[1] != 'u' && (escape_char(c)[1] == '"'
            || escape_char(c)[1] == '\\' || escape_char(c)[1] == 'n' || escape_char(c)[1] == 'r'
            || escape_char(c)[1] == 't'),
        escape_char(c).len() == 6 ==> (c as u32) < 32 && escape_char(c)[1] == 'u' && escape_char(
            c,
        )[4] == hex_char(c as u32 as int / 16) && escape_char(c)[5] == hex_char(
            c as u32 as int % 16,
        ),
{
}

/// Escaping unfolds from the left as well.
proof fn lemma_escape_text_first(s: Seq<char>)
    requires
        s.len() > 0,
    ensures
        escape_text(s) == escape_char(s[0]) + escape_text(s.drop_first()),
    decreases s.len(),
{
    if s.len() == 1 {
        assert(s.drop_last() =~= Seq::<char>::empty());
        assert(s.drop_first() =~= Seq::<char>::empty());
        assert(escape_text(s) =~= escape_char(s[0]) + escape_text(s.drop_first()));
    } else {
        lemma_escape_text_first(s.drop_last());
        assert(s.drop_last()[0] == s[0]);
        assert(s.drop_last().drop_first() =~= s.drop_first().drop_last());
        assert(s.drop_first().last() == s.last());
        assert(escape_text(s) == escape_text(s.drop_last()) + escape_char(s.last()));
        assert(escape_text(s.drop_last()) == escape_char(s[0]) + escape_text(
            s.drop_first().drop_last(),
        ));
        assert(escape_text(s.drop_first()) == escape_text(s.drop_first().drop_last())
            + escape_char(s.drop_first().last()));
        assert(escape_text(s) =~= escape_char(s[0]) + escape_text(s.drop_first()));
    }
}

/// A quoted, escaped string is read back in only one way: the closing quote
/// is unmistakable, since a bare quote never occurs in escaped text.
proof fn lemma_unique_escaped(s1: Seq<char>, s2: Seq<char>, r1: Seq<char>, r2: Seq<char>)
    requires
        escape_text(s1) + seq!['"'] + r1 == escape_text(s2) + seq!['"'] + r2,
        ensures
        s1 == s2,
        r1 == r2,
    decreases s1.len(),
{
    let t1 = escape_text(s1) + seq!['"'] + r1;
    let t2 = escape_text(s2) + seq!['"'] + r2;
    if s1.len() == 0 && s2.len() == 0 {
        assert(t1 =~= seq!['"'] + r1);
        assert(t2 =~= seq!['"'] + r2);
        lemma_append_eq_parts(seq!['"'], seq!['"'], r1, r2);
    } else if s1.len() == 0 {
        lemma_escape_text_first(s2);
        lemma_escape_char_shape(s2[0]);
        assert(t1[0] == '"');
        assert(t2[0] == escape_char(s2[0])[0]);
    } else if s2.len() == 0 {
        lemma_escape_text_first(s1);
        lemma_escape_char_shape(s1[0]);
        assert(t2[0] == '"');
        assert(t1[0] == escape_char(s1[0])[0]);
    } else {
        let c1 = s1[0];
        let c2 = s2[0];
        lemma_escape_text_first(s1);
        lemma_escape_text_first(s2);
        lemma_escape_char_shape(c1);
        lemma_escape_char_shape(c2);
        let u1 = escape_text(s1.drop_first()) + seq!['"'] + r1;
        let u2 = escape_text(s2.drop_first()) + seq!['"'] + r2;
        assert(t1 =~= escape_char(c1) + u1);
        assert(t2 =~= escape_char(c2) + u2);
        assert(t1[0] == escape_char(c1)[0]);
        assert(t2[0] == escape_char(c2)[0]);
        if escape_char(c1).len() == 1 && escape_char(c2).len() == 1 {
            assert(c1 == c2);
        } else if escape_char(c1).len() == 1 {
            assert(t1[0] == c1 && c1 != '\\');
            assert(t2[0] == '\\');
        } else if escape_char(c2).len() == 1 {
            assert(t2[0] == c2 && c2 != '\\');
            assert(t1[0] == '\\');
        } else if escape_char(c1).len() != escape_char(c2).len() {
            assert(t1[1] == escape_char(c1)[1]);
            assert(t2[1] == escape_char(c2)[1]);
            assert((escape_char(c1)[1] == 'u') != (escape_char(c2)[1] == 'u'));
        } else if escape_char(c1).len() == 2 {
            assert(t1[1] == escape_char(c1)[1]);
            assert(t2[1] == escape_char(c2)[1]);
            assert(c1 == c2);
        } else {
            assert(t1[4] == escape_char(c1)[4]);
            assert(t1[5] == escape_char(c1)[5]);
            assert(t2[4] == escape_char(c2)[4]);
            assert(t2[5] == escape_char(c2)[5]);
            assert forall|d1: int, d2: int|
                0 <= d1 < 16 && 0 <= d2 < 16 && hex_char(d1) == hex_char(d2) implies d1 == d2 by {}
            assert(c1 as u32 == c2 as u32);
            vstd::utf8::char_u32_cast(c1, c1 as u32);
            vstd::utf8::char_u32_cast(c2, c2 as u32);
            assert(c1 == c2);
        }
        lemma_append_eq_parts(escape_char(c1), escape_char(c2), u1, u2);
        lemma_unique_escaped(s1.drop_first(), s2.drop_first(), r1, r2);
        assert(s1 =~= seq![c1] + s1.drop_first());
        assert(s2 =~= seq![c2] + s2.drop_first());
    }
}

/// Digits are not delimiters: a digit character is none of the punctuation
/// the renderer writes around values.
proof fn lemma_digit_not_delimiter()
    ensures
        forall|d: int|
            0 <= d < 10 ==> {
                let c = #[trigger] digit_char(d);
                c != 'n' && c != 't' && c != 'f' && c != '"' && c != '[' && c != '{' && c != ']'
                    && c != '}' && c != ',' && c != ':' && c != '-' && c != '\\'
            },
{
    assert forall|d: int| 0 <= d < 10 implies {
        let c = #[trigger] digit_char(d);
        c != 'n' && c != 't' && c != 'f' && c != '"' && c != '[' && c != '{' && c != ']' && c != '}'
            && c != ',' && c != ':' && c != '-' && c != '\\'
    } by {}
}

/// An array's element texts unfold from the left as well.
proof fn lemma_items_text_first(items: Seq<JsonView>)
    requires
        items.len() > 0,
    ensures
        items.len() == 1 ==> items_text(items) == text_of(items[0]),
        items.len() > 1 ==> items_text(items) == text_of(items[0]) + (seq![','] + items_text(
            items.drop_first(),
        )),
    decreases items.len(),
{
    if items.len() > 1 {
        lemma_items_text_first(items.drop_last());
        assert(items.drop_last()[0] == items[0]);
        assert(items.drop_last().drop_first() =~= items.drop_first().drop_last());
        assert(items.drop_first().last() == items.last());
        if items.len() == 2 {
            assert(items.drop_first() =~= seq![items[1]]);
            assert(items_text(items.drop_first()) == text_of(items[1]));
            assert(items_text(items) == items_text(items.drop_last()) + seq![','] + text_of(
                items.last(),
            ));
            assert(items_text(items.drop_last()) == text_of(items[0]));
            assert(items_text(items) =~= text_of(items[0]) + (seq![','] + items_text(
                items.drop_first(),
            )));
        } else {
            assert(items_text(items) == items_text(items.drop_last()) + seq![','] + text_of(
                items.last(),
            ));
            assert(items_text(items.drop_last()) == text_of(items[0]) + (seq![','] + items_text(
                items.drop_last().drop_first(),
            )));
            assert(items_text(items.drop_first()) == items_text(items.drop_first().drop_last())
                + seq![','] + text_of(items.drop_first().last()));
            assert(items_text(items) =~= text_of(items[0]) + (seq![','] + items_text(
                items.drop_first(),
            )));
        }
    }
}

/// One rendered object field: the quoted key, a colon, the value.
pub open spec fn field_text(f: (Seq<char>, JsonView)) -> Seq<char> {
    seq!['"'] + escape_text(f.0) + seq!['"', ':'] + text_of(f.1)
}

/// An object's field texts unfold from the left as well.
proof fn lemma_fields_text_first(fields: Seq<(Seq<char>, JsonView)>)
    requires
        fields.len() > 0,
    ensures
        fields.len() == 1 ==> fields_text(fields) == field_text(fields[0]),
        fields.len() > 1 ==> fields_text(fields) == field_text(fields[0]) + (seq![',']
            + fields_text(fields.drop_first())),
    decreases fields.len(),
{
    if fields.len() > 1 {
        lemma_fields_text_first(fields.drop_last());
        assert(fields.drop_last()[0] == fields[0]);
        assert(fields.drop_last().drop_first() =~= fields.drop_first().drop_last());
        assert(fields.drop_first().last() == fields.last());
        if fields.len() == 2 {
            assert(fields.drop_first() =~= seq![fields[1]]);
            assert(fields_text(fields.drop_first()) == field_text(fields[1]));
            assert(fields_text(fields) == fields_text(fields.drop_last()) + seq![','] + field_text(
                fields.last(),
            ));
            assert(fields_text(fields.drop_last()) == field_text(fields[0]));
            assert(fields_text(fields) =~= field_text(fields[0]) + (seq![','] + fields_text(
                fields.drop_first(),
            )));
        } else {
            assert(fields_text(fields) == fields_text(fields.drop_last()) + seq![','] + field_text(
                fields.last(),
            ));
            assert(fields_text(fields.drop_last()) == field_text(fields[0]) + (seq![',']
                + fields_text(fields.drop_last().drop_first())));
            assert(fields_text(fields.drop_first()) == fields_text(
                fields.drop_first().drop_last(),
            ) + seq![','] + field_text(fields.drop_first().last()));
            assert(fields_text(fields) =~= field_text(fields[0]) + (seq![','] + fields_text(
                fields.drop_first(),
            )));
        }
    }
}

/// A value's text followed by anything that does not extend a digit run is
/// read back in only one way.
proof fn lemma_unique_value(v1: JsonView, v2: JsonView, r1: Seq<char>, r2: Seq<char>)
    requires
        text_of(v1) + r1 == text_of(v2) + r2,
        !starts_with_digit(r1),
        !starts_with_digit(r2),
    ensures
        v1 == v2,
        r1 == r2,
    decreases v1,
{
    lemma_head_char(v1);
    lemma_head_char(v2);
    lemma_digit_not_delimiter();
    let t1 = text_of(v1) + r1;
    assert(t1[0] == text_of(v1)[0]);
    assert(t1[0] == text_of(v2)[0]);
    match (v1, v2) {
        (JsonView::Null, JsonView::Null) => {
            lemma_append_eq_parts(text_of(v1), text_of(v2), r1, r2);
        },
        (JsonView::Bool(b1), JsonView::Bool(b2)) => {
            assert(b1 == b2);
            lemma_append_eq_parts(text_of(v1), text_of(v2), r1, r2);
        },
        (JsonView::Int(i1), JsonView::Int(i2)) => {
            lemma_unique_int(i1, i2, r1, r2);
        },
        (JsonView::Text(s1), JsonView::Text(s2)) => {
            assert(text_of(v1) + r1 =~= seq!['"'] + (escape_text(s1) + seq!['"'] + r1));
            assert(text_of(v2) + r2 =~= seq!['"'] + (escape_text(s2) + seq!['"'] + r2));
            lemma_append_eq_parts(
                seq!['"'],
                seq!['"'],
                escape_text(s1) + seq!['"'] + r1,
                escape_text(s2) + seq!['"'] + r2,
            );
            lemma_unique_escaped(s1, s2, r1, r2);
        },
        (JsonView::Array(is1), JsonView::Array(is2)) => {
            assert(text_of(v1) + r1 =~= seq!['['] + (items_text(is1) + seq![']'] + r1));
            assert(text_of(v2) + r2 =~= seq!['['] + (items_text(is2) + seq![']'] + r2));
            lemma_append_eq_parts(
                seq!['['],
                seq!['['],
                items_text(is1) + seq![']'] + r1,
                items_text(is2) + seq![']'] + r2,
            );
            assert(decreases_to!(v1 => is1));
            lemma_unique_items(is1, is2, r1, r2);
        },
        (JsonView::Object(fs1), JsonView::Object(fs2)) => {
            assert(text_of(v1) + r1 =~= seq!['{'] + (fields_text(fs1) + seq!['}'] + r1));
            assert(text_of(v2) + r2 =~= seq!['{'] + (fields_text(fs2) + seq!['}'] + r2));
            lemma_append_eq_parts(
                seq!['{'],
                seq!['{'],
                fields_text(fs1) + seq!['}'] + r1,
                fields_text(fs2) + seq!['}'] + r2,
            );
            assert(decreases_to!(v1 => fs1));
            lemma_unique_fields(fs1, fs2, r1, r2);
        },
        _ => {
            assert(false);
        },
    }
}

/// An array's element list, up to its closing bracket, is read back in only
/// one way.
proof fn lemma_unique_items(
    is1: Seq<JsonView>,
    is2: Seq<JsonView>,
    r1: Seq<char>,
    r2: Seq<char>,
)
    requires
        items_text(is1) + seq![']'] + r1 == items_text(is2) + seq![']'] + r2,
        ensures
        is1 == is2,
        r1 == r2,
    decreases is1,
{
    lemma_digit_not_delimiter();
    let t1 = items_text(is1) + seq![']'] + r1;
    let t2 = items_text(is2) + seq![']'] + r2;
    if is1.len() == 0 && is2.len() == 0 {
        assert(t1 =~= seq![']'] + r1);
        assert(t2 =~= seq![']'] + r2);
        lemma_append_eq_parts(seq![']'], seq![']'], r1, r2);
    } else if is1.len() == 0 {
        lemma_items_text_first(is2);
        lemma_head_char(is2[0]);
        assert(t1[0] == ']');
        assert(t2[0] == text_of(is2[0])[0]);
    } else if is2.len() == 0 {
        lemma_items_text_first(is1);
        lemma_head_char(is1[0]);
        assert(t2[0] == ']');
        assert(t1[0] == text_of(is1[0])[0]);
    } else {
        lemma_items_text_first(is1);
        lemma_items_text_first(is2);
        let w1 = if is1.len() == 1 {
            seq![']'] + r1
        } else {
            seq![','] + items_text(is1.drop_first()) + seq![']'] + r1
        };
        let w2 = if is2.len() == 1 {
            seq![']'] + r2
        } else {
            seq![','] + items_text(is2.drop_first()) + seq![']'] + r2
        };
        assert(t1 =~= text_of(is1[0]) + w1);
        assert(t2 =~= text_of(is2[0]) + w2);
        assert(!starts_with_digit(w1));
        assert(!starts_with_digit(w2));
        assert(decreases_to!(is1 => is1[0]));
        lemma_unique_value(is1[0], is2[0], w1, w2);
        if is1.len() == 1 && is2.len() == 1 {
            lemma_append_eq_parts(seq![']'], seq![']'], r1, r2);
            assert(is1 =~= is2);
        } else if is1.len() == 1 {
            assert(w1[0] == ']');
            assert(w2[0] == ',');
        } else if is2.len() == 1 {
            assert(w2[0] == ']');
            assert(w1[0] == ',');
        } else {
            assert(w1 =~= seq![','] + (items_text(is1.drop_first()) + seq![']'] + r1));
            assert(w2 =~= seq![','] + (items_text(is2.drop_first()) + seq![']'] + r2));
            lemma_append_eq_parts(
                seq![','],
                seq![','],
                items_text(is1.drop_first()) + seq![']'] + r1,
                items_text(is2.drop_first()) + seq![']'] + r2,
            );
            lemma_unique_items(is1.drop_first(), is2.drop_first(), r1, r2);
            assert(is1 =~= seq![is1[0]] + is1.drop_first());
            assert(is2 =~= seq![is2[0]] + is2.drop_first());
        }
    }
}

/// An object's field list, up to its closing brace, is read back in only one
/// way.
#[verifier::rlimit(100)]
#[verifier::spinoff_prover]
proof fn lemma_unique_fields(
    fs1: Seq<(Seq<char>, JsonView)>,
    fs2: Seq<(Seq<char>, JsonView)>,
    r1: Seq<char>,
    r2: Seq<char>,
)
    requires
        fields_text(fs1) + seq!['}'] + r1 == fields_text(fs2) + seq!['}'] + r2,
        ensures
        fs1 == fs2,
        r1 == r2,
    decreases fs1,
{
    lemma_digit_not_delimiter();
    let t1 = fields_text(fs1) + seq!['}'] + r1;
    let t2 = fields_text(fs2) + seq!['}'] + r2;
    if fs1.len() == 0 && fs2.len() == 0 {
        assert(t1 =~= seq!['}'] + r1);
        assert(t2 =~= seq!['}'] + r2);
        lemma_append_eq_parts(seq!['}'], seq!['}'], r1, r2);
    } else if fs1.len() == 0 {
        lemma_fields_text_first(fs2);
        assert(t1[0] == '}');
        assert(t2[0] == '"');
    } else if fs2.len() == 0 {
        lemma_fields_text_first(fs1);
        assert(t2[0] == '}');
        assert(t1[0] == '"');
    } else {
        lemma_fields_text_first(fs1);
        lemma_fields_text_first(fs2);
        let w1 = if fs1.len() == 1 {
            seq!['}'] + r1
        } else {
            seq![','] + fields_text(fs1.drop_first()) + seq!['}'] + r1
        };
        let w2 = if fs2.len() == 1 {
            seq!['}'] + r2
        } else {
            seq![','] + fields_text(fs2.drop_first()) + seq!['}'] + r2
        };
        let q1 = seq![':'] + text_of(fs1[0].1) + w1;
        let q2 = seq![':'] + text_of(fs2[0].1) + w2;
        assert(t1 =~= seq!['"'] + (escape_text(fs1[0].0) + seq!['"'] + q1));
        assert(t2 =~= seq!['"'] + (escape_text(fs2[0].0) + seq!['"'] + q2));
        lemma_append_eq_parts(
            seq!['"'],
            seq!['"'],
            escape_text(fs1[0].0) + seq!['"'] + q1,
            escape_text(fs2[0].0) + seq!['"'] + q2,
        );
        lemma_unique_escaped(fs1[0].0, fs2[0].0, q1, q2);
        assert(q1 =~= seq![':'] + (text_of(fs1[0].1) + w1));
        assert(q2 =~= seq![':'] + (text_of(fs2[0].1) + w2));
        lemma_append_eq_parts(seq![':'], seq![':'], text_of(fs1[0].1) + w1, text_of(fs2[0].1) + w2);
        assert(!starts_with_digit(w1));
        assert(!starts_with_digit(w2));
        assert(decreases_to!(fs1 => fs1[0].1));
        lemma_unique_value(fs1[0].1, fs2[0].1, w1, w2);
        if fs1.len() == 1 && fs2.len() == 1 {
            lemma_append_eq_parts(seq!['}'], seq!['}'], r1, r2);
            assert(fs1 =~= fs2);
        } else if fs1.len() == 1 {
            assert(w1[0] == '}');
            assert(w2[0] == ',');
        } else if fs2.len() == 1 {
            assert(w2[0] == '}');
            assert(w1[0] == ',');
        } else {
            assert(w1 =~= seq![','] + (fields_text(fs1.drop_first()) + seq!['}'] + r1));
            assert(w2 =~= seq![','] + (fields_text(fs2.drop_first()) + seq!['}'] + r2));
            lemma_append_eq_parts(
                seq![','],
                seq![','],
                fields_text(fs1.drop_first()) + seq!['}'] + r1,
                fields_text(fs2.drop_first()) + seq!['}'] + r2,
            );
            lemma_unique_fields(fs1.drop_first(), fs2.drop_first(), r1, r2);
            assert(fs1 =~= seq![fs1[0]] + fs1.drop_first());
            assert(fs2 =~= seq![fs2[0]] + fs2.drop_first());
        }
    }
}

/// Rendering is injective: the canonical text determines the value. With
/// the contract of `decode`, this pins the round trip down: when decoding
/// the canonical text of a value succeeds, it can give back that value and
/// no other.
pub proof fn lemma_text_of_injective(v1: JsonView, v2: JsonView)
    requires
        text_of(v1) == text_of(v2),
    ensures
        v1 == v2,
{
    assert(text_of(v1) + Seq::<char>::empty() =~= text_of(v2) + Seq::<char>::empty());
    lemma_unique_value(v1, v2, Seq::empty(), Seq::empty());
}

/// An array's element texts split at any interior position.
proof fn lemma_items_concat(is: Seq<JsonView>, k: int)
    requires
        0 < k < is.len(),
    ensures
        items_text(is) == items_text(is.take(k)) + seq![','] + items_text(is.skip(k)),
    decreases is.len(),
{
    if k == is.len() - 1 {
        assert(is.skip(k) =~= seq![is.last()]);
        assert(items_text(is.skip(k)) == text_of(is.last()));
        assert(is.take(k) =~= is.drop_last());
        assert(items_text(is) == items_text(is.drop_last()) + seq![','] + text_of(is.last()));
        assert(items_text(is) =~= items_text(is.take(k)) + seq![','] + items_text(is.skip(k)));
    } else {
        lemma_items_concat(is.drop_last(), k);
        assert(is.drop_last().take(k) =~= is.take(k));
        assert(is.drop_last().skip(k) =~= is.skip(k).drop_last());
        assert(is.skip(k).last() == is.last());
        assert(items_text(is.skip(k)) == items_text(is.skip(k).drop_last()) + seq![','] + text_of(
            is.last(),
        ));
        assert(items_text(is) == items_text(is.drop_last()) + seq![','] + text_of(is.last()));
        assert(items_text(is) =~= items_text(is.take(k)) + seq![','] + items_text(is.skip(k)));
    }
}

/// An object's field texts split at any interior position.
proof fn lemma_fields_concat(fs: Seq<(Seq<char>, JsonView)>, k: int)
    requires
        0 < k < fs.len(),
    ensures
        fields_text(fs) == fields_text(fs.take(k)) + seq![','] + fields_text(fs.skip(k)),
    decreases fs.len(),
{
    if k == fs.len() - 1 {
        assert(fs.skip(k) =~= seq![fs.last()]);
        assert(fields_text(fs.skip(k)) == field_text(fs.last()));
        assert(fs.take(k) =~= fs.drop_last());
        assert(fields_text(fs) == fields_text(fs.drop_last()) + seq![','] + field_text(fs.last()));
        assert(fields_text(fs) =~= fields_text(fs.take(k)) + seq![','] + fields_text(fs.skip(k)));
    } else {
        lemma_fields_concat(fs.drop_last(), k);
        assert(fs.drop_last().take(k) =~= fs.take(k));
        assert(fs.drop_last().skip(k) =~= fs.skip(k).drop_last());
        assert(fs.skip(k).last() == fs.last());
        assert(fields_text(fs.skip(k)) == fields_text(fs.skip(k).drop_last()) + seq![',']
            + field_text(fs.last()));
        assert(fields_text(fs) == fields_text(fs.drop_last()) + seq![','] + field_text(fs.last()));
        assert(fields_text(fs) =~= fields_text(fs.take(k)) + seq![','] + fields_text(fs.skip(k)));
    }
}

/// Where an array's m-th element sits within the array's canonical text, and
/// what follows it: a comma before a further element, the closing bracket
/// after the last.
proof fn lemma_array_layout(s: Seq<char>, i: int, is: Seq<JsonView>, m: int)
    requires
        value_at(s, i, JsonView::Array(is)),
        0 <= m < is.len(),
    ensures
        ({
            let pos = i + 1 + items_text(is.take(m)).len() + (if m > 0 {
                1int
            } else {
                0int
            });
            let elen = text_of(is[m]).len() as int;
            &&& pos + elen < s.len()
            &&& value_at(s, pos, is[m])
            &&& (m + 1 < is.len() ==> s[pos + elen] == ',')
            &&& (m + 1 == is.len() ==> s[pos + elen] == ']' && pos + elen + 1 == i + text_of(
                JsonView::Array(is),
            ).len())
        }),
{
    lemma_digit_not_delimiter();
    let t = text_of(JsonView::Array(is));
    let head = seq!['['] + items_text(is.take(m)) + (if m > 0 {
        seq![',']
    } else {
        Seq::<char>::empty()
    });
    let tail = (if m + 1 < is.len() {
        seq![','] + items_text(is.skip(m + 1))
    } else {
        Seq::<char>::empty()
    }) + seq![']'];
    if m == 0 {
        lemma_items_text_first(is);
        assert(is.take(0) =~= Seq::<JsonView>::empty());
        if is.len() > 1 {
            assert(is.drop_first() =~= is.skip(1));
        }
        assert(t =~= head + text_of(is[m]) + tail);
    } else {
        lemma_items_concat(is, m);
        lemma_items_text_first(is.skip(m));
        assert(is.skip(m)[0] == is[m]);
        if m + 1 < is.len() {
            assert(is.skip(m).drop_first() =~= is.skip(m + 1));
        } else {
            assert(is.skip(m) =~= seq![is[m]]);
        }
        assert(t =~= head + text_of(is[m]) + tail);
    }
    let pos = i + head.len();
    let elen = text_of(is[m]).len() as int;
    assert forall|k: int| 0 <= k < t.len() implies s[i + k] == t[k] by {
        assert(s.subrange(i, i + t.len())[k] == s[i + k]);
    }
    assert forall|k: int| 0 <= k < elen implies s[pos + k] == text_of(is[m])[k] by {
        assert(t[head.len() + k] == (head + text_of(is[m]) + tail)[head.len() + k]);
        assert(s[i + head.len() + k] == t[head.len() + k]);
    }
    assert(s.subrange(pos, pos + elen) =~= text_of(is[m]));
    assert(t[head.len() + elen as int] == tail[0]);
    assert(s[i + head.len() + elen as int] == t[head.len() + elen as int]);
    if m + 1 < is.len() {
        assert(tail[0] == ',');
    } else {
        assert(tail[0] == ']');
    }
}

/// Where an object's m-th field sits within the object's canonical text: the
/// quoted key, the colon, the value, and what follows.
#[verifier::rlimit(60)]
proof fn lemma_object_layout(s: Seq<char>, i: int, fs: Seq<(Seq<char>, JsonView)>, m: int)
    requires
        value_at(s, i, JsonView::Object(fs)),
        0 <= m < fs.len(),
    ensures
        ({
            let pos = i + 1 + fields_text(fs.take(m)).len() + (if m > 0 {
                1int
            } else {
                0int
            });
            let klen = (escape_text(fs[m].0).len() + 2) as int;
            let vlen = text_of(fs[m].1).len() as int;
            &&& pos + klen + 1 + vlen < s.len()
            &&& quoted_at(s, pos, fs[m].0)
            &&& s[pos + klen] == ':'
            &&& value_at(s, pos + klen + 1, fs[m].1)
            &&& (m + 1 < fs.len() ==> s[pos + klen + 1 + vlen] == ',')
            &&& (m + 1 == fs.len() ==> s[pos + klen + 1 + vlen] == '}' && pos + klen + 1 + vlen
                + 1 == i + text_of(JsonView::Object(fs)).len())
        }),
{
    lemma_digit_not_delimiter();
    let t = text_of(JsonView::Object(fs));
    let head = seq!['{'] + fields_text(fs.take(m)) + (if m > 0 {
        seq![',']
    } else {
        Seq::<char>::empty()
    });
    let tail = (if m + 1 < fs.len() {
        seq![','] + fields_text(fs.skip(m + 1))
    } else {
        Seq::<char>::empty()
    }) + seq!['}'];
    if m == 0 {
        lemma_fields_text_first(fs);
        assert(fs.take(0) =~= Seq::<(Seq<char>, JsonView)>::empty());
        if fs.len() > 1 {
            assert(fs.drop_first() =~= fs.skip(1));
        }
        assert(t =~= head + field_text(fs[m]) + tail);
    } else {
        lemma_fields_concat(fs, m);
        lemma_fields_text_first(fs.skip(m));
        assert(fs.skip(m)[0] == fs[m]);
        if m + 1 < fs.len() {
            assert(fs.skip(m).drop_first() =~= fs.skip(m + 1));
        } else {
            assert(fs.skip(m) =~= seq![fs[m]]);
        }
        assert(t =~= head + field_text(fs[m]) + tail);
    }
    let pos = i + head.len();
    let klen = (escape_text(fs[m].0).len() + 2) as int;
    let vlen = text_of(fs[m].1).len() as int;
    let ft = field_text(fs[m]);
    assert forall|k: int| 0 <= k < t.len() implies s[i + k] == t[k] by {
        assert(s.subrange(i, i + t.len())[k] == s[i + k]);
    }
    assert forall|k: int| 0 <= k < ft.len() implies s[pos + k] == ft[k] by {
        assert(t[head.len() + k] == (head + ft + tail)[head.len() + k]);
        assert(s[i + head.len() + k] == t[head.len() + k]);
    }
    let q = seq!['"'] + escape_text(fs[m].0) + seq!['"'];
    assert forall|k: int| 0 <= k < klen implies s[pos + k] == q[k] by {
        assert(ft =~= q + seq![':'] + text_of(fs[m].1));
        assert(ft[k] == q[k]);
    }
    assert(s.subrange(pos, pos + klen) =~= q);
    assert(ft =~= q + seq![':'] + text_of(fs[m].1));
    assert(ft[klen] == ':');
    assert(s[pos + klen] == ft[klen]);
    assert forall|k: int| 0 <= k < vlen implies s[pos + klen + 1 + k] == text_of(fs[m].1)[k] by {
        assert(ft[klen + 1 + k] == text_of(fs[m].1)[k]);
        assert(s[pos + klen + 1 + k] == ft[klen + 1 + k]);
    }
    assert(s.subrange(pos + klen + 1, pos + klen + 1 + vlen) =~= text_of(fs[m].1));
    assert(t[head.len() + ft.len() as int] == tail[0]);
    assert(s[i + head.len() + ft.len() as int] == t[head.len() + ft.len() as int]);
    if m + 1 < fs.len() {
        assert(tail[0] == ',');
    } else {
        assert(tail[0] == '}');
    }
}

/// Decode the canonical text of a document value: the inverse of `encode`.
/// A successful decode gives back exactly the value whose canonical text the
/// input is; any other input is rejected; and decoding never fails on the
/// canonical text of a value the library can hold — together, the round
/// trip: decoding `encode(v)` yields exactly `v`.
pub fn decode(s: &str) -> (r: Option<JsonValue>)
    ensures
        r matches Some(v) ==> s@ == text_of(v@),
        forall|vv: JsonView|
            representable(vv) && s@ == text_of(vv) ==> (r matches Some(v) && v@ == vv),
{
    let chars = chars_of(s);
    proof {
        assert forall|vv: JsonView| representable(vv) && s@ == text_of(vv) implies value_at(
            chars@,
            0,
            vv,
        ) by {
            assert(chars@.subrange(0, text_of(vv).len() as int) =~= chars@);
        }
    }
    match parse_value(&chars, 0) {
        Some(p) => {
            if p.1 != chars.len() {
                proof {
                    assert forall|vv: JsonView|
                        representable(vv) && s@ == text_of(vv) implies false by {}
                }
                return None;
            }
            let rendered = encode(&p.0);
            let given: String = s.to_owned();
            if rendered == given {
                Some(p.0)
            } else {
                proof {
                    assert forall|vv: JsonView|
                        representable(vv) && s@ == text_of(vv) implies false by {}
                }
                None
            }
        },
        None => {
            proof {
                assert forall|vv: JsonView|
                    representable(vv) && s@ == text_of(vv) implies false by {}
            }
            None
        },
    }
}

} // verus!
