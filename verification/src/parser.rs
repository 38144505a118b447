use vstd::prelude::*;
use crate::model::{
    EventModel, JsonType, ParseError, Step, StrScan, LitScan, decimal, is_number_char, is_ws,
    lit_false, lit_null, lit_true, literal_scan, number_len, scan_array, scan_document,
    scan_object, scan_value, string_scan, BACKSLASH, COLON, COMMA, DIGIT_0, DIGIT_9, DOLLAR, DOT,
    LBRACE, LBRACKET, LC_A, LC_E, LC_F, LC_L, LC_N, LC_R, LC_S, LC_T, LC_U, MINUS, PLUS, QUOTE,
    RBRACE, RBRACKET, UC_E,
};
use crate::laws::{
    lemma_number_len_le, lemma_scan_value_consumes, lemma_string_scan_consumes,
};

verus! {

/// One emitted event: the path of the value, its type tag, and the raw text
/// delivered with it. Events are recorded in document order, every child
/// before the composite that holds it.
#[derive(Debug, PartialEq, Eq)]
pub struct Event {
    pub path: Vec<u8>,
    pub kind: JsonType,
    pub value: Vec<u8>,
}

impl View for Event {
    type V = EventModel;

    open spec fn view(&self) -> EventModel {
        EventModel { path: self.path@, kind: self.kind, value: self.value@ }
    }
}

/// The events of a recorded sequence, at the specification level.
pub open spec fn events_model(events: Seq<Event>) -> Seq<EventModel> {
    events.map_values(|e: Event| e@)
}

/// Does `c` belong to the whitespace set the grammar skips?
fn ws_byte(c: u8) -> (r: bool)
    ensures
        r == is_ws(c),
{
    c == 32 || c == 9 || c == 13 || c == 10
}

/// Does `c` belong to the number character set?
fn number_byte(c: u8) -> (r: bool)
    ensures
        r == is_number_char(c),
{
    (DIGIT_0 <= c && c <= DIGIT_9) || c == DOT || c == MINUS || c == PLUS || c == LC_E || c == UC_E
}

/// A fresh copy of a byte buffer, made when an event snapshots the shared
/// path and value buffers.
fn copy_bytes(src: &Vec<u8>) -> (r: Vec<u8>)
    ensures
        r@ == src@,
{
    let mut r: Vec<u8> = Vec::new();
    let mut i: usize = 0;
    while i < src.len()
        invariant
            i <= src.len(),
            r@ == src@.take(i as int),
        decreases src.len() - i,
    {
        r.push(src[i]);
        i = i + 1;
        proof {
            assert(r@ =~= src@.take(i as int));
        }
    }
    proof {
        assert(src@.take(src@.len() as int) =~= src@);
    }
    r
}

/// Appends the decimal digits of `n` to `buf`, most significant first.
fn push_decimal(buf: &mut Vec<u8>, n: usize)
    ensures
        final(buf)@ == old(buf)@ + decimal(n as nat),
    decreases n,
{
    if n >= 10 {
        push_decimal(buf, n / 10);
    }
    buf.push((n % 10) as u8 + 48);
    proof {
        if n < 10 {
            assert(buf@ =~= old(buf)@ + decimal(n as nat));
        } else {
            assert(decimal(n as nat) == decimal(n as nat / 10) + seq![(n as nat % 10 + 48) as u8]);
            assert(buf@ =~= old(buf)@ + decimal(n as nat));
        }
    }
}

/// The streaming parser: the input bytes with the read position, the
/// pushed-back bytes, the shared path and value buffers, and the events
/// recorded so far.
pub struct JsonParser {
    input: Vec<u8>,
    pos: usize,
    ungets: Vec<u8>,
    path: Vec<u8>,
    value: Vec<u8>,
    events: Vec<Event>,
}

impl JsonParser {
    /// The bytes not yet consumed: pushed-back bytes first (latest first),
    /// then the unread rest of the input.
    pub closed spec fn remaining(&self) -> Seq<u8> {
        self.ungets@.reverse() + self.input@.skip(self.pos as int)
    }

    /// The path buffer's content.
    pub closed spec fn path_model(&self) -> Seq<u8> {
        self.path@
    }

    /// The value buffer's content.
    pub closed spec fn value_model(&self) -> Seq<u8> {
        self.value@
    }

    /// The events recorded so far, in emission order.
    pub closed spec fn emitted(&self) -> Seq<EventModel> {
        events_model(self.events@)
    }

    /// Validity of the parser's internal positions: the read position lies
    /// inside the input, and never more bytes are pushed back than were read.
    pub closed spec fn wf(&self) -> bool {
        self.pos <= self.input@.len() && self.ungets@.len() <= self.pos
    }

    /// A byte may be pushed back only after one was read.
    spec fn can_unget(&self) -> bool {
        self.ungets@.len() < self.pos
    }

    /// A fresh parser over `input`, with path `$`, an empty value buffer and
    /// no events.
    pub fn new(input: Vec<u8>) -> (p: JsonParser)
        ensures
            p.wf(),
            p.remaining() == input@,
            p.path_model() == seq![DOLLAR],
            p.value_model() == Seq::<u8>::empty(),
            p.emitted() == Seq::<EventModel>::empty(),
    {
        let mut path: Vec<u8> = Vec::new();
        path.push(DOLLAR);
        let p = JsonParser {
            input,
            pos: 0,
            ungets: Vec::new(),
            path,
            value: Vec::new(),
            events: Vec::new(),
        };
        proof {
            assert(p.remaining() =~= p.input@);
            assert(p.path_model() =~= seq![DOLLAR]);
            assert(p.emitted() =~= Seq::<EventModel>::empty());
        }
        p
    }

    /// The events recorded so far. After a failed parse these are the events
    /// of the values completed before the error.
    pub fn events(&self) -> (r: &Vec<Event>)
        ensures
            events_model(r@) == self.emitted(),
    {
        &self.events
    }

    /// The path buffer's current content: the location being parsed, also
    /// readable right after a failure.
    pub fn path_text(&self) -> (r: &Vec<u8>)
        ensures
            r@ == self.path_model(),
    {
        &self.path
    }

    /// Pops the latest pushed-back byte, or reads the next input byte.
    /// Returns nothing exactly on clean end of input.
    fn getc(&mut self) -> (r: Option<u8>)
        requires
            old(self).wf(),
        ensures
            final(self).wf(),
            final(self).path_model() == old(self).path_model(),
            final(self).value_model() == old(self).value_model(),
            final(self).emitted() == old(self).emitted(),
            match r {
                Some(c) => old(self).remaining().len() > 0 && c == old(self).remaining()[0]
                    && final(self).remaining() == old(self).remaining().skip(1)
                    && final(self).can_unget(),
                None => old(self).remaining().len() == 0 && final(self).remaining() == old(
                    self,
                ).remaining(),
            },
    {
        let popped = self.ungets.pop();
        match popped {
            Some(c) => {
                proof {
                    let u = old(self).ungets@;
                    assert(u.reverse()[0] == u[u.len() - 1]);
                    assert(self.remaining() =~= old(self).remaining().skip(1));
                }
                Some(c)
            },
            None => {
                if self.pos < self.input.len() {
                    let c = self.input[self.pos];
                    self.pos = self.pos + 1;
                    proof {
                        assert(old(self).remaining() =~= old(self).input@.skip(
                            old(self).pos as int,
                        ));
                        assert(self.remaining() =~= old(self).remaining().skip(1));
                    }
                    Some(c)
                } else {
                    proof {
                        assert(old(self).remaining() =~= Seq::<u8>::empty());
                    }
                    None
                }
            },
        }
    }

    /// Defers one previously read byte so that the next read returns it
    /// again: the single-byte lookahead of the grammar.
    fn ungetc(&mut self, c: u8)
        requires
            old(self).wf(),
            old(self).can_unget(),
        ensures
            final(self).wf(),
            final(self).path_model() == old(self).path_model(),
            final(self).value_model() == old(self).value_model(),
            final(self).emitted() == old(self).emitted(),
            final(self).remaining() == seq![c] + old(self).remaining(),
    {
        self.ungets.push(c);
        proof {
            assert(self.ungets@.reverse() =~= seq![c] + old(self).ungets@.reverse());
            assert(self.remaining() =~= seq![c] + old(self).remaining());
        }
    }

    /// Records one event, snapshotting the current path and value buffers.
    fn emit(&mut self, kind: JsonType)
        requires
            old(self).wf(),
        ensures
            final(self).wf(),
            final(self).remaining() == old(self).remaining(),
            final(self).path_model() == old(self).path_model(),
            final(self).value_model() == old(self).value_model(),
            final(self).emitted() == old(self).emitted() + seq![
                EventModel {
                    path: old(self).path_model(),
                    kind,
                    value: old(self).value_model(),
                },
            ],
    {
        let path = copy_bytes(&self.path);
        let value = copy_bytes(&self.value);
        self.events.push(Event { path, kind, value });
        proof {
            assert(self.emitted() =~= old(self).emitted() + seq![
                EventModel { path: old(self).path_model(), kind, value: old(self).value_model() },
            ]);
        }
    }

    /// Greedily lexes number characters into the cleared value buffer and
    /// pushes the first byte outside the set back, so that nothing beyond
    /// the number is consumed.
    fn read_number(&mut self)
        requires
            old(self).wf(),
        ensures
            final(self).wf(),
            final(self).path_model() == old(self).path_model(),
            final(self).emitted() == old(self).emitted(),
            final(self).value_model() == old(self).remaining().take(
                number_len(old(self).remaining()) as int,
            ),
            final(self).remaining() == old(self).remaining().skip(
                number_len(old(self).remaining()) as int,
            ),
    {
        self.value.clear();
        let ghost start = *self;
        proof {
            lemma_number_len_le(start.remaining());
            assert(start.remaining().skip(0) =~= start.remaining());
            assert(start.remaining().take(0) =~= self.value@);
        }
        loop
            invariant
                self.wf(),
                self.path@ == start.path@,
                self.emitted() == start.emitted(),
                self.value@.len() <= start.remaining().len(),
                self.remaining() == start.remaining().skip(self.value@.len() as int),
                self.value@ == start.remaining().take(self.value@.len() as int),
                number_len(start.remaining()) == self.value@.len() + number_len(self.remaining()),
            ensures
                self.wf(),
                self.path@ == start.path@,
                self.emitted() == start.emitted(),
                self.value@ == start.remaining().take(number_len(start.remaining()) as int),
                self.remaining() == start.remaining().skip(number_len(start.remaining()) as int),
            decreases self.remaining().len(),
        {
            let ghost k = self.value@.len();
            let c_opt = self.getc();
            match c_opt {
                None => {
                    break;
                },
                Some(c) => {
                    if number_byte(c) {
                        self.value.push(c);
                        proof {
                            assert(self.remaining() =~= start.remaining().skip(k as int + 1));
                            assert(self.value@ =~= start.remaining().take(k as int + 1));
                        }
                    } else {
                        self.ungetc(c);
                        proof {
                            assert(self.remaining() =~= start.remaining().skip(k as int));
                            assert(number_len(self.remaining()) == 0);
                        }
                        break;
                    }
                },
            }
        }
    }

    /// Lexes a string body (the opening quote already consumed) until an
    /// unescaped quote, appending every content byte to the path buffer when
    /// `path` is set, to the value buffer otherwise. Returns the number of
    /// bytes appended; fails when the input ends first.
    #[verifier::loop_isolation(false)]
    fn read_string(&mut self, path: bool) -> (r: Result<usize, ParseError>)
        requires
            old(self).wf(),
        ensures
            final(self).wf(),
            final(self).emitted() == old(self).emitted(),
            match string_scan(old(self).remaining(), false) {
                StrScan::Done { content, rest } => {
                    &&& r == Ok::<usize, ParseError>(content.len() as usize)
                    &&& final(self).remaining() == rest
                    &&& (path ==> final(self).path_model() == old(self).path_model() + content
                        && final(self).value_model() == old(self).value_model())
                    &&& (!path ==> final(self).value_model() == old(self).value_model() + content
                        && final(self).path_model() == old(self).path_model())
                },
                StrScan::Unterminated => r == Err::<usize, ParseError>(
                    ParseError::UnterminatedString,
                ) && final(self).remaining() == Seq::<u8>::empty(),
            },
    {
        let ghost start = *self;
        let ghost mut acc: Seq<u8> = Seq::empty();
        let mut in_escape = false;
        let before: usize = if path {
            self.path.len()
        } else {
            self.value.len()
        };
        proof {
            assert(start.path@ + acc =~= start.path@);
            assert(start.value@ + acc =~= start.value@);
        }
        loop
            invariant
                self.wf(),
                self.emitted() == start.emitted(),
                path ==> self.path@ == start.path@ + acc && self.value@ == start.value@,
                !path ==> self.value@ == start.value@ + acc && self.path@ == start.path@,
                match string_scan(self.remaining(), in_escape) {
                    StrScan::Done { content, rest } => string_scan(start.remaining(), false)
                        == (StrScan::Done { content: acc + content, rest }),
                    StrScan::Unterminated => string_scan(start.remaining(), false)
                        is Unterminated,
                },
            decreases self.remaining().len(),
        {
            let ghost prev = *self;
            let ghost prev_esc = in_escape;
            let ghost prev_acc = acc;
            let c_opt = self.getc();
            match c_opt {
                None => {
                    proof {
                        assert(self.remaining() =~= Seq::<u8>::empty());
                    }
                    return Err(ParseError::UnterminatedString);
                },
                Some(c) => {
                    if c == BACKSLASH && !in_escape {
                        in_escape = true;
                        proof {
                            assert(string_scan(prev.remaining(), prev_esc) == string_scan(
                                self.remaining(),
                                true,
                            ));
                        }
                    } else if c == QUOTE && !in_escape {
                        proof {
                            assert(acc + Seq::<u8>::empty() =~= acc);
                        }
                        let after: usize = if path {
                            self.path.len()
                        } else {
                            self.value.len()
                        };
                        return Ok(after - before);
                    } else {
                        if path {
                            self.path.push(c);
                        } else {
                            self.value.push(c);
                        }
                        in_escape = false;
                        proof {
                            acc = acc + seq![c];
                            if path {
                                assert(self.path@ =~= start.path@ + acc);
                            } else {
                                assert(self.value@ =~= start.value@ + acc);
                            }
                            assert(string_scan(prev.remaining(), prev_esc) == match string_scan(
                                self.remaining(),
                                false,
                            ) {
                                StrScan::Done { content, rest } => StrScan::Done {
                                    content: seq![c] + content,
                                    rest,
                                },
                                StrScan::Unterminated => StrScan::Unterminated,
                            });
                            match string_scan(self.remaining(), false) {
                                StrScan::Done { content, rest } => {
                                    assert(prev_acc + (seq![c] + content) =~= acc + content);
                                },
                                StrScan::Unterminated => {},
                            }
                        }
                    }
                },
            }
        }
    }

    /// Consumes the tail of a `true`, `false` or `null` literal, verifying
    /// each byte against `expect`. The value buffer is left untouched.
    #[verifier::loop_isolation(false)]
    fn read_literal(&mut self, expect: &[u8]) -> (r: Result<(), ParseError>)
        requires
            old(self).wf(),
        ensures
            final(self).wf(),
            final(self).emitted() == old(self).emitted(),
            final(self).path_model() == old(self).path_model(),
            final(self).value_model() == old(self).value_model(),
            match literal_scan(old(self).remaining(), expect@) {
                LitScan::Done { rest } => r == Ok::<(), ParseError>(()) && final(self).remaining()
                    == rest,
                LitScan::Fail { err, rest } => r == Err::<(), ParseError>(err)
                    && final(self).remaining() == rest,
            },
    {
        let ghost start = *self;
        let mut i: usize = 0;
        proof {
            assert(expect@.skip(0) =~= expect@);
        }
        while i < expect.len()
            invariant
                self.wf(),
                self.emitted() == start.emitted(),
                self.path@ == start.path@,
                self.value@ == start.value@,
                i <= expect@.len(),
                literal_scan(start.remaining(), expect@) == literal_scan(
                    self.remaining(),
                    expect@.skip(i as int),
                ),
            decreases expect@.len() - i,
        {
            let ghost suffix = expect@.skip(i as int);
            let c_opt = self.getc();
            match c_opt {
                None => {
                    proof {
                        assert(suffix[0] == expect@[i as int]);
                    }
                    return Err(ParseError::LiteralEnd { expected: expect[i] });
                },
                Some(c) => {
                    if c != expect[i] {
                        proof {
                            assert(suffix[0] == expect@[i as int]);
                        }
                        return Err(ParseError::LiteralMismatch { expected: expect[i], got: c });
                    }
                    i = i + 1;
                    proof {
                        assert(suffix.skip(1) =~= expect@.skip(i as int));
                    }
                },
            }
        }
        Ok(())
    }

    /// Parses exactly one value from the stream: skips leading whitespace,
    /// dispatches on the first significant byte, emits the events of all
    /// descendants and then the value's own event, and leaves the stream
    /// positioned right after the value. On success the path buffer is
    /// restored to its pre-call content. The outcome — result, events,
    /// buffers and stream position — is exactly the grammar model's.
    pub fn read_value(&mut self) -> (r: Result<(), ParseError>)
        requires
            old(self).wf(),
        ensures
            final(self).wf(),
            match scan_value(
                old(self).remaining(),
                old(self).path_model(),
                old(self).value_model(),
            ) {
                Step::Done { rest, value, events } => {
                    &&& r == Ok::<(), ParseError>(())
                    &&& final(self).remaining() == rest
                    &&& final(self).path_model() == old(self).path_model()
                    &&& final(self).value_model() == value
                    &&& final(self).emitted() == old(self).emitted() + events
                },
                Step::Fail { err, events, rest } => {
                    &&& r == Err::<(), ParseError>(err)
                    &&& final(self).emitted() == old(self).emitted() + events
                    &&& final(self).remaining() == rest
                },
            },
        decreases old(self).remaining().len(), 0int,
    {
        let ghost s0 = old(self).remaining();
        let ghost p0 = old(self).path_model();
        let ghost v0 = old(self).value_model();
        let ghost e0 = old(self).emitted();
        let c_opt = self.getc();
        match c_opt {
            None => {
                proof {
                    assert(e0 + Seq::<EventModel>::empty() =~= e0);
                }
                Err(ParseError::UnexpectedEnd)
            },
            Some(c) => {
                if ws_byte(c) {
                    let r = self.read_value();
                    proof {
                        assert(scan_value(s0, p0, v0) == scan_value(s0.skip(1), p0, v0));
                    }
                    r
                } else if c == LBRACE {
                    let r = self.read_object();
                    match r {
                        Ok(u) => {
                            let ghost ev = match scan_object(s0.skip(1), p0, Seq::empty(), v0) {
                                Step::Done { events, .. } => events,
                                Step::Fail { events, .. } => events,
                            };
                            self.emit(JsonType::Object);
                            proof {
                                assert((e0 + ev) + seq![
                                    EventModel { path: p0, kind: JsonType::Object, value: self.value@ },
                                ] =~= e0 + (ev + seq![
                                    EventModel { path: p0, kind: JsonType::Object, value: self.value@ },
                                ]));
                            }
                            Ok(u)
                        },
                        Err(e) => Err(e),
                    }
                } else if c == LBRACKET {
                    let r = self.read_array();
                    match r {
                        Ok(u) => {
                            let ghost ev = match scan_array(s0.skip(1), p0, 0, true, v0) {
                                Step::Done { events, .. } => events,
                                Step::Fail { events, .. } => events,
                            };
                            self.emit(JsonType::Array);
                            proof {
                                assert((e0 + ev) + seq![
                                    EventModel { path: p0, kind: JsonType::Array, value: self.value@ },
                                ] =~= e0 + (ev + seq![
                                    EventModel { path: p0, kind: JsonType::Array, value: self.value@ },
                                ]));
                            }
                            Ok(u)
                        },
                        Err(e) => Err(e),
                    }
                } else if (DIGIT_0 <= c && c <= DIGIT_9) || c == MINUS {
                    self.ungetc(c);
                    proof {
                        assert(self.remaining() =~= s0);
                    }
                    self.read_number();
                    self.emit(JsonType::Number);
                    Ok(())
                } else if c == QUOTE {
                    self.value.clear();
                    let r = self.read_string(false);
                    match r {
                        Ok(_) => {
                            proof {
                                match string_scan(s0.skip(1), false) {
                                    StrScan::Done { content, rest } => {
                                        assert(Seq::<u8>::empty() + content =~= content);
                                    },
                                    StrScan::Unterminated => {},
                                }
                            }
                            self.emit(JsonType::String);
                            Ok(())
                        },
                        Err(e) => {
                            proof {
                                assert(e0 + Seq::<EventModel>::empty() =~= e0);
                            }
                            Err(e)
                        },
                    }
                } else if c == LC_T {
                    let lit = [LC_R, LC_U, LC_E];
                    proof {
                        assert(lit@ =~= lit_true());
                    }
                    let r = self.read_literal(lit.as_slice());
                    match r {
                        Ok(u) => {
                            self.emit(JsonType::True);
                            Ok(u)
                        },
                        Err(e) => {
                            proof {
                                assert(e0 + Seq::<EventModel>::empty() =~= e0);
                            }
                            Err(e)
                        },
                    }
                } else if c == LC_F {
                    let lit = [LC_A, LC_L, LC_S, LC_E];
                    proof {
                        assert(lit@ =~= lit_false());
                    }
                    let r = self.read_literal(lit.as_slice());
                    match r {
                        Ok(u) => {
                            self.emit(JsonType::False);
                            Ok(u)
                        },
                        Err(e) => {
                            proof {
                                assert(e0 + Seq::<EventModel>::empty() =~= e0);
                            }
                            Err(e)
                        },
                    }
                } else if c == LC_N {
                    let lit = [LC_U, LC_L, LC_L];
                    proof {
                        assert(lit@ =~= lit_null());
                    }
                    let r = self.read_literal(lit.as_slice());
                    match r {
                        Ok(u) => {
                            self.emit(JsonType::Null);
                            Ok(u)
                        },
                        Err(e) => {
                            proof {
                                assert(e0 + Seq::<EventModel>::empty() =~= e0);
                            }
                            Err(e)
                        },
                    }
                } else {
                    proof {
                        assert(e0 + Seq::<EventModel>::empty() =~= e0);
                    }
                    Err(ParseError::UnexpectedChar { got: c })
                }
            },
        }
    }

    /// Parses the members of an array, the opening `[` already consumed:
    /// values separated by commas until `]`, each parsed at the path
    /// extended by `[index]` and the path buffer restored right after.
    #[verifier::loop_isolation(false)]
    fn read_array(&mut self) -> (r: Result<(), ParseError>)
        requires
            old(self).wf(),
        ensures
            final(self).wf(),
            match scan_array(
                old(self).remaining(),
                old(self).path_model(),
                0,
                true,
                old(self).value_model(),
            ) {
                Step::Done { rest, value, events } => {
                    &&& r == Ok::<(), ParseError>(())
                    &&& final(self).remaining() == rest
                    &&& final(self).path_model() == old(self).path_model()
                    &&& final(self).value_model() == value
                    &&& final(self).emitted() == old(self).emitted() + events
                },
                Step::Fail { err, events, rest } => {
                    &&& r == Err::<(), ParseError>(err)
                    &&& final(self).emitted() == old(self).emitted() + events
                    &&& final(self).remaining() == rest
                },
            },
        decreases old(self).remaining().len(), 1int,
    {
        let ghost start = *old(self);
        let mut i: usize = 0;
        let mut expecting = true;
        let ghost mut acc: Seq<EventModel> = Seq::empty();
        proof {
            assert(start.emitted() + acc =~= start.emitted());
        }
        loop
            invariant
                self.wf(),
                self.path@ == start.path@,
                i + self.remaining().len() <= start.remaining().len(),
                self.emitted() == start.emitted() + acc,
                match scan_array(self.remaining(), start.path@, i as nat, expecting, self.value@) {
                    Step::Done { rest, value, events } => scan_array(
                        start.remaining(),
                        start.path@,
                        0,
                        true,
                        start.value@,
                    ) == (Step::Done { rest, value, events: acc + events }),
                    Step::Fail { err, events, rest } => scan_array(
                        start.remaining(),
                        start.path@,
                        0,
                        true,
                        start.value@,
                    ) == (Step::Fail { err, events: acc + events, rest }),
                },
            decreases self.remaining().len(),
        {
            let ghost prev = *self;
            let ghost prev_acc = acc;
            let c_opt = self.getc();
            match c_opt {
                None => {
                    proof {
                        assert(acc + Seq::<EventModel>::empty() =~= acc);
                    }
                    return Err(ParseError::EndOfArray);
                },
                Some(c) => {
                    if ws_byte(c) {
                    } else if c == RBRACKET {
                        if expecting && i > 0 {
                            proof {
                                assert(acc + Seq::<EventModel>::empty() =~= acc);
                            }
                            return Err(ParseError::InvalidChar { got: c });
                        } else {
                            proof {
                                assert(acc + Seq::<EventModel>::empty() =~= acc);
                            }
                            return Ok(());
                        }
                    } else if c == COMMA {
                        if expecting {
                            proof {
                                assert(acc + Seq::<EventModel>::empty() =~= acc);
                            }
                            return Err(ParseError::InvalidChar { got: c });
                        } else {
                            proof {
                                assert(start.input.len() == start.input@.len());
                                assert(start.remaining().len() <= start.input@.len());
                            }
                            i = i + 1;
                            expecting = true;
                        }
                    } else if !expecting {
                        proof {
                            assert(acc + Seq::<EventModel>::empty() =~= acc);
                        }
                        return Err(ParseError::InvalidChar { got: c });
                    } else {
                        self.ungetc(c);
                        proof {
                            assert(self.remaining() =~= prev.remaining());
                        }
                        let l = self.path.len();
                        self.path.push(LBRACKET);
                        push_decimal(&mut self.path, i);
                        self.path.push(RBRACKET);
                        let ghost elem_path = start.path@ + seq![LBRACKET] + decimal(i as nat)
                            + seq![RBRACKET];
                        proof {
                            assert(self.path@ =~= elem_path);
                        }
                        let r = self.read_value();
                        match r {
                            Err(e) => {
                                proof {
                                    match scan_value(prev.remaining(), elem_path, prev.value@) {
                                        Step::Done { .. } => {},
                                        Step::Fail { err, events, .. } => {
                                            assert(prev_acc + events =~= acc + events);
                                            assert(self.emitted() =~= start.emitted() + (acc
                                                + events));
                                        },
                                    }
                                }
                                return Err(e);
                            },
                            Ok(u) => {
                                self.path.truncate(l);
                                proof {
                                    assert(self.path@ =~= start.path@);
                                    lemma_scan_value_consumes(
                                        prev.remaining(),
                                        elem_path,
                                        prev.value@,
                                    );
                                    match scan_value(prev.remaining(), elem_path, prev.value@) {
                                        Step::Done { rest, value, events } => {
                                            acc = prev_acc + events;
                                            assert(self.emitted() =~= start.emitted() + acc);
                                            match scan_array(rest, start.path@, i as nat, false, value) {
                                                Step::Done { events: e2, .. } => {
                                                    assert(prev_acc + (events + e2) =~= acc + e2);
                                                },
                                                Step::Fail { events: e2, .. } => {
                                                    assert(prev_acc + (events + e2) =~= acc + e2);
                                                },
                                            }
                                        },
                                        Step::Fail { .. } => {},
                                    }
                                }
                                expecting = false;
                            },
                        }
                    }
                },
            }
        }
    }

    /// Parses the members of an object, the opening `{` already consumed.
    /// A `.` and then the pending key extend the path buffer while a member
    /// parses; they are dropped again at the following `,` or at `}`, which
    /// restores the path buffer to its content at entry.
    #[verifier::loop_isolation(false)]
    fn read_object(&mut self) -> (r: Result<(), ParseError>)
        requires
            old(self).wf(),
        ensures
            final(self).wf(),
            match scan_object(
                old(self).remaining(),
                old(self).path_model(),
                Seq::empty(),
                old(self).value_model(),
            ) {
                Step::Done { rest, value, events } => {
                    &&& r == Ok::<(), ParseError>(())
                    &&& final(self).remaining() == rest
                    &&& final(self).path_model() == old(self).path_model()
                    &&& final(self).value_model() == value
                    &&& final(self).emitted() == old(self).emitted() + events
                },
                Step::Fail { err, events, rest } => {
                    &&& r == Err::<(), ParseError>(err)
                    &&& final(self).emitted() == old(self).emitted() + events
                    &&& final(self).remaining() == rest
                },
            },
        decreases old(self).remaining().len(), 1int,
    {
        let ghost start = *old(self);
        let mut key_len: usize = 0;
        self.path.push(DOT);
        let ghost mut key: Seq<u8> = Seq::empty();
        let ghost mut acc: Seq<EventModel> = Seq::empty();
        proof {
            assert(start.emitted() + acc =~= start.emitted());
            assert(self.path@ =~= start.path@ + seq![DOT] + key);
        }
        loop
            invariant
                self.wf(),
                key.len() == key_len,
                self.path@ == start.path@ + seq![DOT] + key,
                self.remaining().len() <= start.remaining().len(),
                self.emitted() == start.emitted() + acc,
                match scan_object(self.remaining(), start.path@, key, self.value@) {
                    Step::Done { rest, value, events } => scan_object(
                        start.remaining(),
                        start.path@,
                        Seq::empty(),
                        start.value@,
                    ) == (Step::Done { rest, value, events: acc + events }),
                    Step::Fail { err, events, rest } => scan_object(
                        start.remaining(),
                        start.path@,
                        Seq::empty(),
                        start.value@,
                    ) == (Step::Fail { err, events: acc + events, rest }),
                },
            decreases self.remaining().len(),
        {
            let ghost prev = *self;
            let ghost prev_key = key;
            let ghost prev_acc = acc;
            let c_opt = self.getc();
            match c_opt {
                None => {
                    proof {
                        assert(acc + Seq::<EventModel>::empty() =~= acc);
                    }
                    return Err(ParseError::EndOfObject);
                },
                Some(c) => {
                    if ws_byte(c) {
                    } else if c == RBRACE {
                        // drop the pending key and the dot: back to the path at entry
                        let new_len = self.path.len() - key_len - 1;
                        self.path.truncate(new_len);
                        proof {
                            assert(self.path@ =~= start.path@);
                            assert(acc + Seq::<EventModel>::empty() =~= acc);
                        }
                        return Ok(());
                    } else if c == QUOTE {
                        if key_len != 0 {
                            proof {
                                assert(acc + Seq::<EventModel>::empty() =~= acc);
                            }
                            return Err(ParseError::ExpectedColon);
                        } else {
                            let r = self.read_string(true);
                            match r {
                                Ok(n) => {
                                    key_len = n;
                                    proof {
                                        lemma_string_scan_consumes(prev.remaining().skip(1), false);
                                        match string_scan(prev.remaining().skip(1), false) {
                                            StrScan::Done { content, rest } => {
                                                key = content;
                                                assert(start.input.len() == start.input@.len());
                                                assert(start.remaining().len()
                                                    <= start.input@.len());
                                                assert(content.len() <= prev.remaining().skip(
                                                    1,
                                                ).len());
                                                assert(content.len() == n);
                                                assert(prev.path@ + content =~= start.path@
                                                    + seq![DOT] + key);
                                            },
                                            StrScan::Unterminated => {},
                                        }
                                    }
                                },
                                Err(e) => {
                                    proof {
                                        assert(acc + Seq::<EventModel>::empty() =~= acc);
                                    }
                                    return Err(e);
                                },
                            }
                        }
                    } else if c == COLON {
                        if key_len == 0 {
                            proof {
                                assert(acc + Seq::<EventModel>::empty() =~= acc);
                            }
                            return Err(ParseError::ExpectedKey);
                        } else {
                            let ghost member_path = start.path@ + seq![DOT] + key;
                            let r = self.read_value();
                            match r {
                                Err(e) => {
                                    proof {
                                        match scan_value(
                                            prev.remaining().skip(1),
                                            member_path,
                                            prev.value@,
                                        ) {
                                            Step::Done { .. } => {},
                                            Step::Fail { err, events, .. } => {
                                                assert(prev_acc + events =~= acc + events);
                                                assert(self.emitted() =~= start.emitted() + (acc
                                                    + events));
                                            },
                                        }
                                    }
                                    return Err(e);
                                },
                                Ok(u) => {
                                    proof {
                                        lemma_scan_value_consumes(
                                            prev.remaining().skip(1),
                                            member_path,
                                            prev.value@,
                                        );
                                        match scan_value(
                                            prev.remaining().skip(1),
                                            member_path,
                                            prev.value@,
                                        ) {
                                            Step::Done { rest, value, events } => {
                                                acc = prev_acc + events;
                                                assert(self.emitted() =~= start.emitted() + acc);
                                                match scan_object(rest, start.path@, key, value) {
                                                    Step::Done { events: e2, .. } => {
                                                        assert(prev_acc + (events + e2) =~= acc
                                                            + e2);
                                                    },
                                                    Step::Fail { events: e2, .. } => {
                                                        assert(prev_acc + (events + e2) =~= acc
                                                            + e2);
                                                    },
                                                }
                                            },
                                            Step::Fail { .. } => {},
                                        }
                                    }
                                },
                            }
                        }
                    } else if c == COMMA {
                        // drop the key text, keep the dot for the next key
                        let new_len = self.path.len() - key_len;
                        self.path.truncate(new_len);
                        key_len = 0;
                        proof {
                            key = Seq::empty();
                            assert(self.path@ =~= start.path@ + seq![DOT] + key);
                        }
                    } else {
                        proof {
                            assert(acc + Seq::<EventModel>::empty() =~= acc);
                        }
                        return Err(ParseError::UnexpectedChar { got: c });
                    }
                },
            }
        }
    }
}

/// Parses one complete JSON document from `input`: runs one top-level value
/// parse at path `$` and returns the events in document order, or the first
/// error encountered. Anything after the first value is left unread.
pub fn json_parse(input: Vec<u8>) -> (r: Result<Vec<Event>, ParseError>)
    ensures
        match scan_document(input@) {
            Step::Done { events, .. } => r matches Ok(evs) && events_model(evs@) == events,
            Step::Fail { err, .. } => r == Err::<Vec<Event>, ParseError>(err),
        },
{
    let mut parser = JsonParser::new(input);
    let res = parser.read_value();
    proof {
        match scan_document(input@) {
            Step::Done { events, .. } => {
                assert(Seq::<EventModel>::empty() + events =~= events);
            },
            Step::Fail { .. } => {},
        }
    }
    match res {
        Ok(u) => Ok(parser.events),
        Err(e) => Err(e),
    }
}

} // verus!
