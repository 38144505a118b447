use vstd::prelude::*;

verus! {

/// Byte values of the characters the grammar dispatches on.
pub const SPACE: u8 = 32;

pub const TAB: u8 = 9;

pub const CR: u8 = 13;

pub const LF: u8 = 10;

pub const QUOTE: u8 = 34;

pub const BACKSLASH: u8 = 92;

pub const LBRACE: u8 = 123;

pub const RBRACE: u8 = 125;

pub const LBRACKET: u8 = 91;

pub const RBRACKET: u8 = 93;

pub const COMMA: u8 = 44;

pub const COLON: u8 = 58;

pub const DOLLAR: u8 = 36;

pub const DOT: u8 = 46;

pub const MINUS: u8 = 45;

pub const PLUS: u8 = 43;

pub const DIGIT_0: u8 = 48;

pub const DIGIT_9: u8 = 57;

pub const LC_E: u8 = 101;

pub const UC_E: u8 = 69;

pub const LC_T: u8 = 116;

pub const LC_F: u8 = 102;

pub const LC_N: u8 = 110;

pub const LC_R: u8 = 114;

pub const LC_U: u8 = 117;

pub const LC_A: u8 = 97;

pub const LC_L: u8 = 108;

pub const LC_S: u8 = 115;

/// Tag identifying the shape of a completed JSON value.
#[derive(Clone, Copy, PartialEq, Eq, Debug, Structural)]
pub enum JsonType {
    /// Placeholder tag that no emitted event carries.
    Unused,
    String,
    Number,
    True,
    False,
    Null,
    Array,
    Object,
}

/// Why a parse stopped. Every error is fatal to the parse that raised it.
#[derive(Clone, Copy, PartialEq, Eq, Debug, Structural)]
pub enum ParseError {
    /// End of input where a value was required.
    UnexpectedEnd,
    /// A byte that no grammar production accepts at this point.
    UnexpectedChar { got: u8 },
    /// End of input inside a string, before its closing quote.
    UnterminatedString,
    /// A byte after `t`, `f` or `n` that does not continue the literal.
    LiteralMismatch { expected: u8, got: u8 },
    /// End of input in the middle of a `true`, `false` or `null` literal.
    LiteralEnd { expected: u8 },
    /// A sequencing violation inside an array, such as a trailing comma.
    InvalidChar { got: u8 },
    /// A second key where a `:` was required.
    ExpectedColon,
    /// A `:` with no key before it.
    ExpectedKey,
    /// End of input inside an array, before its `]`.
    EndOfArray,
    /// End of input inside an object, before its `}`.
    EndOfObject,
}

/// One emitted event, at the specification level: the path of the value,
/// its type tag, and the raw text delivered with it.
pub ghost struct EventModel {
    pub path: Seq<u8>,
    pub kind: JsonType,
    pub value: Seq<u8>,
}

/// Outcome of one specification-level production: the unconsumed input and,
/// on success, the value buffer afterwards and the events emitted, or, on
/// failure, the error together with the events emitted before it. On failure
/// `rest` starts right after the offending byte: nothing is pushed back and
/// nothing beyond it is read.
pub ghost enum Step {
    Done { rest: Seq<u8>, value: Seq<u8>, events: Seq<EventModel> },
    Fail { err: ParseError, events: Seq<EventModel>, rest: Seq<u8> },
}

/// Outcome of lexing a string body: its content bytes and the unconsumed
/// input after the closing quote, or end of input before that quote.
pub ghost enum StrScan {
    Done { content: Seq<u8>, rest: Seq<u8> },
    Unterminated,
}

/// Outcome of matching the tail of a `true`, `false` or `null` literal.
/// On failure `rest` starts right after the first discrepancy: no byte
/// beyond it is read.
pub ghost enum LitScan {
    Done { rest: Seq<u8> },
    Fail { err: ParseError, rest: Seq<u8> },
}

pub open spec fn is_ws(c: u8) -> bool {
    c == SPACE || c == TAB || c == CR || c == LF
}

pub open spec fn is_digit(c: u8) -> bool {
    DIGIT_0 <= c <= DIGIT_9
}

/// The bytes a number may contain. Membership is the only check made:
/// malformed numeric text is passed through verbatim.
pub open spec fn is_number_char(c: u8) -> bool {
    is_digit(c) || c == DOT || c == MINUS || c == PLUS || c == LC_E || c == UC_E
}

/// Length of the longest prefix of `s` made of number characters.
pub open spec fn number_len(s: Seq<u8>) -> nat
    decreases s.len(),
{
    if s.len() == 0 || !is_number_char(s[0]) {
        0
    } else {
        1 + number_len(s.skip(1))
    }
}

/// Lexes a string body from `s` (the opening quote already consumed).
/// An unescaped backslash marks exactly the next byte as escaped and is
/// itself dropped; the escaped byte — backslash and quote included — is
/// copied through verbatim and clears the flag; an unescaped quote
/// terminates. No de-escaping beyond this takes place.
pub open spec fn string_scan(s: Seq<u8>, escaped: bool) -> StrScan
    decreases s.len(),
{
    if s.len() == 0 {
        StrScan::Unterminated
    } else if s[0] == BACKSLASH && !escaped {
        string_scan(s.skip(1), true)
    } else if s[0] == QUOTE && !escaped {
        StrScan::Done { content: Seq::empty(), rest: s.skip(1) }
    } else {
        match string_scan(s.skip(1), false) {
            StrScan::Done { content, rest } => StrScan::Done {
                content: seq![s[0]] + content,
                rest,
            },
            StrScan::Unterminated => StrScan::Unterminated,
        }
    }
}

/// Matches `expect` against the front of `s`, byte for byte.
pub open spec fn literal_scan(s: Seq<u8>, expect: Seq<u8>) -> LitScan
    decreases expect.len(),
{
    if expect.len() == 0 {
        LitScan::Done { rest: s }
    } else if s.len() == 0 {
        LitScan::Fail { err: ParseError::LiteralEnd { expected: expect[0] }, rest: s }
    } else if s[0] != expect[0] {
        LitScan::Fail {
            err: ParseError::LiteralMismatch { expected: expect[0], got: s[0] },
            rest: s.skip(1),
        }
    } else {
        literal_scan(s.skip(1), expect.skip(1))
    }
}

/// The decimal digits of `n`, most significant first.
pub open spec fn decimal(n: nat) -> Seq<u8>
    decreases n,
{
    if n < 10 {
        seq![(n + 48) as u8]
    } else {
        decimal(n / 10) + seq![(n % 10 + 48) as u8]
    }
}

pub open spec fn lit_true() -> Seq<u8> {
    seq![LC_R, LC_U, LC_E]
}

pub open spec fn lit_false() -> Seq<u8> {
    seq![LC_A, LC_L, LC_S, LC_E]
}

pub open spec fn lit_null() -> Seq<u8> {
    seq![LC_U, LC_L, LC_L]
}

/// Parses exactly one value from the front of `s` and emits its events.
/// `path` is the location of this value; on success it is unchanged by
/// construction, since each nested production receives its extension as a
/// fresh argument. `value` is the value buffer as the parse reaches this
/// value: composites deliver it as-is, so their event carries whatever text
/// the most recently lexed scalar left behind.
///
/// The `rest.len() < s.len()` guards only justify termination: a parsed
/// value always consumes at least one byte (`lemma_scan_value_consumes`),
/// so their `else` branches are never reached.
pub open spec fn scan_value(s: Seq<u8>, path: Seq<u8>, value: Seq<u8>) -> Step
    decreases s.len(), 0int,
{
    if s.len() == 0 {
        Step::Fail { err: ParseError::UnexpectedEnd, events: Seq::empty(), rest: s }
    } else {
        let c = s[0];
        let t = s.skip(1);
        if is_ws(c) {
            scan_value(t, path, value)
        } else if c == LBRACE {
            match scan_object(t, path, Seq::empty(), value) {
                Step::Done { rest, value: v2, events } => Step::Done {
                    rest,
                    value: v2,
                    events: events + seq![
                        EventModel { path, kind: JsonType::Object, value: v2 },
                    ],
                },
                fail => fail,
            }
        } else if c == LBRACKET {
            match scan_array(t, path, 0, true, value) {
                Step::Done { rest, value: v2, events } => Step::Done {
                    rest,
                    value: v2,
                    events: events + seq![
                        EventModel { path, kind: JsonType::Array, value: v2 },
                    ],
                },
                fail => fail,
            }
        } else if is_digit(c) || c == MINUS {
            let n = number_len(s) as int;
            Step::Done {
                rest: s.skip(n),
                value: s.take(n),
                events: seq![
                    EventModel { path, kind: JsonType::Number, value: s.take(n) },
                ],
            }
        } else if c == QUOTE {
            match string_scan(t, false) {
                StrScan::Done { content, rest } => Step::Done {
                    rest,
                    value: content,
                    events: seq![
                        EventModel { path, kind: JsonType::String, value: content },
                    ],
                },
                StrScan::Unterminated => Step::Fail {
                    err: ParseError::UnterminatedString,
                    events: Seq::empty(),
                    rest: Seq::empty(),
                },
            }
        } else if c == LC_T {
            scan_literal(t, lit_true(), path, JsonType::True, value)
        } else if c == LC_F {
            scan_literal(t, lit_false(), path, JsonType::False, value)
        } else if c == LC_N {
            scan_literal(t, lit_null(), path, JsonType::Null, value)
        } else {
            Step::Fail { err: ParseError::UnexpectedChar { got: c }, events: Seq::empty(), rest: t }
        }
    }
}

/// A literal's event: the value buffer is left untouched, so the event
/// carries whatever text was in it already.
pub open spec fn scan_literal(
    s: Seq<u8>,
    expect: Seq<u8>,
    path: Seq<u8>,
    kind: JsonType,
    value: Seq<u8>,
) -> Step {
    match literal_scan(s, expect) {
        LitScan::Done { rest } => Step::Done {
            rest,
            value,
            events: seq![EventModel { path, kind, value }],
        },
        LitScan::Fail { err, rest } => Step::Fail { err, events: Seq::empty(), rest },
    }
}

/// Parses the members of an array, the opening `[` already consumed.
/// `idx` is the zero-based index of the next element; `expecting` says
/// whether an element (rather than `,` or `]`) may come next. An element's
/// path is `path` plus `[idx]`. The events of an element stay emitted even
/// when a later member fails.
pub open spec fn scan_array(
    s: Seq<u8>,
    path: Seq<u8>,
    idx: nat,
    expecting: bool,
    value: Seq<u8>,
) -> Step
    decreases s.len(), 1int,
{
    if s.len() == 0 {
        Step::Fail { err: ParseError::EndOfArray, events: Seq::empty(), rest: s }
    } else {
        let c = s[0];
        let t = s.skip(1);
        if is_ws(c) {
            scan_array(t, path, idx, expecting, value)
        } else if c == RBRACKET {
            if expecting && idx > 0 {
                Step::Fail { err: ParseError::InvalidChar { got: c }, events: Seq::empty(), rest: t }
            } else {
                Step::Done { rest: t, value, events: Seq::empty() }
            }
        } else if c == COMMA {
            if expecting {
                Step::Fail { err: ParseError::InvalidChar { got: c }, events: Seq::empty(), rest: t }
            } else {
                scan_array(t, path, idx + 1, true, value)
            }
        } else if !expecting {
            Step::Fail { err: ParseError::InvalidChar { got: c }, events: Seq::empty(), rest: t }
        } else {
            match scan_value(s, path + seq![LBRACKET] + decimal(idx) + seq![RBRACKET], value) {
                Step::Done { rest, value: v2, events } => {
                    if rest.len() < s.len() {
                        match scan_array(rest, path, idx, false, v2) {
                            Step::Done { rest: r2, value: v3, events: e2 } => Step::Done {
                                rest: r2,
                                value: v3,
                                events: events + e2,
                            },
                            Step::Fail { err, events: e2, rest: r2 } => Step::Fail {
                                err,
                                events: events + e2,
                                rest: r2,
                            },
                        }
                    } else {
                        Step::Fail { err: ParseError::EndOfArray, events, rest }
                    }
                },
                fail => fail,
            }
        }
    }
}

/// Parses the members of an object, the opening `{` already consumed.
/// `base` is the path of the object itself; `key` is the pending key (empty
/// when none is pending). A member's value is parsed at `base` plus `.` plus
/// `key`; the key is dropped again at the following `,` or `}`, so `base`
/// itself is never altered.
pub open spec fn scan_object(s: Seq<u8>, base: Seq<u8>, key: Seq<u8>, value: Seq<u8>) -> Step
    decreases s.len(), 1int,
{
    if s.len() == 0 {
        Step::Fail { err: ParseError::EndOfObject, events: Seq::empty(), rest: s }
    } else {
        let c = s[0];
        let t = s.skip(1);
        if is_ws(c) {
            scan_object(t, base, key, value)
        } else if c == RBRACE {
            Step::Done { rest: t, value, events: Seq::empty() }
        } else if c == QUOTE {
            if key.len() != 0 {
                Step::Fail { err: ParseError::ExpectedColon, events: Seq::empty(), rest: t }
            } else {
                match string_scan(t, false) {
                    StrScan::Done { content, rest } => {
                        if rest.len() < s.len() {
                            scan_object(rest, base, content, value)
                        } else {
                            Step::Fail {
                                err: ParseError::EndOfObject,
                                events: Seq::empty(),
                                rest,
                            }
                        }
                    },
                    StrScan::Unterminated => Step::Fail {
                        err: ParseError::UnterminatedString,
                        events: Seq::empty(),
                        rest: Seq::empty(),
                    },
                }
            }
        } else if c == COLON {
            if key.len() == 0 {
                Step::Fail { err: ParseError::ExpectedKey, events: Seq::empty(), rest: t }
            } else {
                match scan_value(t, base + seq![DOT] + key, value) {
                    Step::Done { rest, value: v2, events } => {
                        if rest.len() < s.len() {
                            match scan_object(rest, base, key, v2) {
                                Step::Done { rest: r2, value: v3, events: e2 } => Step::Done {
                                    rest: r2,
                                    value: v3,
                                    events: events + e2,
                                },
                                Step::Fail { err, events: e2, rest: r2 } => Step::Fail {
                                    err,
                                    events: events + e2,
                                    rest: r2,
                                },
                            }
                        } else {
                            Step::Fail { err: ParseError::EndOfObject, events, rest }
                        }
                    },
                    fail => fail,
                }
            }
        } else if c == COMMA {
            scan_object(t, base, Seq::empty(), value)
        } else {
            Step::Fail { err: ParseError::UnexpectedChar { got: c }, events: Seq::empty(), rest: t }
        }
    }
}

/// The meaning of parsing one whole document: one value at path `$`, from
/// a fresh parser whose value buffer is empty.
pub open spec fn scan_document(s: Seq<u8>) -> Step {
    scan_value(s, seq![DOLLAR], Seq::empty())
}

/// The input from its first significant byte on: `s` with its leading
/// whitespace removed.
pub open spec fn significant(s: Seq<u8>) -> Seq<u8>
    decreases s.len(),
{
    if s.len() == 0 {
        s
    } else if is_ws(s[0]) {
        significant(s.skip(1))
    } else {
        s
    }
}

/// The first byte the value dispatch acts on: the first byte of `s` that is
/// not whitespace.
pub open spec fn dispatch(s: Seq<u8>) -> Option<u8> {
    if significant(s).len() == 0 {
        None
    } else {
        Some(significant(s)[0])
    }
}

/// The type tag a scalar dispatch byte announces, if it announces one.
pub open spec fn scalar_kind(c: u8) -> Option<JsonType> {
    if is_digit(c) || c == MINUS {
        Some(JsonType::Number)
    } else if c == QUOTE {
        Some(JsonType::String)
    } else if c == LC_T {
        Some(JsonType::True)
    } else if c == LC_F {
        Some(JsonType::False)
    } else if c == LC_N {
        Some(JsonType::Null)
    } else {
        None
    }
}

} // verus!
