use vstd::prelude::*;
use crate::model::{
    EventModel, JsonType, LitScan, ParseError, Step, StrScan, decimal, dispatch, is_digit,
    is_number_char, is_ws, lit_false, lit_null, lit_true, literal_scan, number_len, scalar_kind,
    scan_array, scan_document, scan_object, scan_value, significant, string_scan, BACKSLASH,
    COLON, COMMA, DOT, LBRACE, LBRACKET, LC_F, LC_N, LC_T, MINUS, QUOTE, RBRACE, RBRACKET,
};

verus! {

/// A number prefix is never longer than the input it was read from.
pub proof fn lemma_number_len_le(s: Seq<u8>)
    ensures
        number_len(s) <= s.len(),
    decreases s.len(),
{
    if s.len() > 0 && is_number_char(s[0]) {
        lemma_number_len_le(s.skip(1));
    }
}

/// A completed string consumes at least its closing quote, so strictly more
/// bytes than its content has.
pub proof fn lemma_string_scan_consumes(s: Seq<u8>, escaped: bool)
    ensures
        string_scan(s, escaped) matches StrScan::Done { content, rest } ==> rest.len() < s.len()
            && content.len() <= s.len(),
    decreases s.len(),
{
    if s.len() == 0 {
    } else if s[0] == BACKSLASH && !escaped {
        lemma_string_scan_consumes(s.skip(1), true);
    } else if s[0] == QUOTE && !escaped {
    } else {
        lemma_string_scan_consumes(s.skip(1), false);
    }
}

/// A matched literal consumes exactly the literal's length.
pub proof fn lemma_literal_scan_rest(s: Seq<u8>, expect: Seq<u8>)
    ensures
        literal_scan(s, expect) matches LitScan::Done { rest } ==> expect.len() <= s.len()
            && rest == s.skip(expect.len() as int),
    decreases expect.len(),
{
    if expect.len() == 0 {
        assert(s.skip(0) =~= s);
    } else if s.len() == 0 {
    } else if s[0] != expect[0] {
    } else {
        lemma_literal_scan_rest(s.skip(1), expect.skip(1));
        if literal_scan(s, expect) is Done {
            assert(s.skip(1).skip(expect.len() - 1) =~= s.skip(expect.len() as int));
        }
    }
}

/// A parsed value consumes at least one byte. Together with the two lemmas
/// below this discharges the termination guards inside the grammar model:
/// their unreachable branches need never be considered.
pub proof fn lemma_scan_value_consumes(s: Seq<u8>, path: Seq<u8>, value: Seq<u8>)
    ensures
        scan_value(s, path, value) matches Step::Done { rest, .. } ==> rest.len() < s.len(),
    decreases s.len(), 0int,
{
    if s.len() == 0 {
    } else {
        let c = s[0];
        let t = s.skip(1);
        if is_ws(c) {
            lemma_scan_value_consumes(t, path, value);
        } else if c == LBRACE {
            lemma_scan_object_consumes(t, path, Seq::empty(), value);
        } else if c == LBRACKET {
            lemma_scan_array_consumes(t, path, 0, true, value);
        } else if is_digit(c) || c == MINUS {
            lemma_number_len_le(s);
        } else if c == QUOTE {
            lemma_string_scan_consumes(t, false);
        } else if c == LC_T {
            lemma_literal_scan_rest(t, lit_true());
        } else if c == LC_F {
            lemma_literal_scan_rest(t, lit_false());
        } else if c == LC_N {
            lemma_literal_scan_rest(t, lit_null());
        }
    }
}

/// A completed array tail consumes at least its closing bracket.
pub proof fn lemma_scan_array_consumes(
    s: Seq<u8>,
    path: Seq<u8>,
    idx: nat,
    expecting: bool,
    value: Seq<u8>,
)
    ensures
        scan_array(s, path, idx, expecting, value) matches Step::Done { rest, .. } ==> rest.len()
            < s.len(),
    decreases s.len(), 1int,
{
    if s.len() == 0 {
    } else {
        let c = s[0];
        let t = s.skip(1);
        if is_ws(c) {
            lemma_scan_array_consumes(t, path, idx, expecting, value);
        } else if c == RBRACKET {
        } else if c == COMMA {
            if !expecting {
                lemma_scan_array_consumes(t, path, idx + 1, true, value);
            }
        } else if !expecting {
        } else {
            let elem_path = path + seq![LBRACKET] + decimal(idx) + seq![RBRACKET];
            lemma_scan_value_consumes(s, elem_path, value);
            match scan_value(s, elem_path, value) {
                Step::Done { rest, value: v2, .. } => {
                    lemma_scan_array_consumes(rest, path, idx, false, v2);
                },
                Step::Fail { .. } => {
                },
            }
        }
    }
}

/// A completed object tail consumes at least its closing brace.
pub proof fn lemma_scan_object_consumes(s: Seq<u8>, base: Seq<u8>, key: Seq<u8>, value: Seq<u8>)
    ensures
        scan_object(s, base, key, value) matches Step::Done { rest, .. } ==> rest.len() < s.len(),
    decreases s.len(), 1int,
{
    if s.len() == 0 {
    } else {
        let c = s[0];
        let t = s.skip(1);
        if is_ws(c) {
            lemma_scan_object_consumes(t, base, key, value);
        } else if c == RBRACE {
        } else if c == QUOTE {
            if key.len() == 0 {
                lemma_string_scan_consumes(t, false);
                match string_scan(t, false) {
                    StrScan::Done { content, rest } => {
                        lemma_scan_object_consumes(rest, base, content, value);
                    },
                    StrScan::Unterminated => {
                    },
                }
            }
        } else if c == COLON {
            if key.len() != 0 {
                let member_path = base + seq![DOT] + key;
                lemma_scan_value_consumes(t, member_path, value);
                match scan_value(t, member_path, value) {
                    Step::Done { rest, value: v2, .. } => {
                        if rest.len() < s.len() {
                            lemma_scan_object_consumes(rest, base, key, v2);
                        }
                    },
                    Step::Fail { .. } => {
                    },
                }
            }
        } else if c == COMMA {
            lemma_scan_object_consumes(t, base, Seq::empty(), value);
        }
    }
}

/// Law: a well-formed document holding just a scalar — a number, string,
/// boolean or null — emits exactly one event, at the path the value was
/// parsed at, with the type tag its dispatch byte announces and the correct
/// text: the number's characters, the string's content, or, for a literal,
/// the untouched value buffer.
pub proof fn lemma_scalar_single_event(
    s: Seq<u8>,
    path: Seq<u8>,
    value: Seq<u8>,
    c: u8,
    kind: JsonType,
)
    requires
        dispatch(s) == Some(c),
        scalar_kind(c) == Some(kind),
        scan_value(s, path, value) is Done,
    ensures
        scan_value(s, path, value) matches Step::Done { events, .. } && {
            &&& events.len() == 1
            &&& events[0].path == path
            &&& events[0].kind == kind
            &&& kind == JsonType::Number ==> events[0].value == significant(s).take(
                number_len(significant(s)) as int,
            )
            &&& kind == JsonType::String ==> (string_scan(significant(s).skip(1), false)
                matches StrScan::Done { content, .. } && events[0].value == content)
            &&& (kind == JsonType::True || kind == JsonType::False || kind == JsonType::Null)
                ==> events[0].value == value
        },
    decreases s.len(),
{
    if is_ws(s[0]) {
        lemma_scalar_single_event(s.skip(1), path, value, c, kind);
    }
}

/// Law: parsing is deterministic. Two independent parses of the same byte
/// sequence reach the same outcome, so they emit identical sequences of
/// (path, type, value) events.
pub proof fn lemma_parse_deterministic(a: Seq<u8>, b: Seq<u8>)
    requires
        a == b,
    ensures
        scan_document(a) == scan_document(b),
{
}

} // verus!
