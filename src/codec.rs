use vstd::prelude::*;
use vstd::utf8::*;
use crate::variant::Variant;

verus! {

broadcast use vstd::utf8::group_utf8_lib;

/// One event of the markup stream that property values are written to and
/// read from.
#[derive(Debug)]
pub enum XmlEvent {
    StartElement { name: String, attributes: Vec<(String, String)> },
    Characters(String),
    EndElement { name: String },
}

pub ghost enum XmlEventView {
    StartElement { name: Seq<char>, attributes: Seq<(Seq<char>, Seq<char>)> },
    Characters(Seq<char>),
    EndElement { name: Seq<char> },
}

impl View for XmlEvent {
    type V = XmlEventView;

    open spec fn view(&self) -> XmlEventView {
        match self {
            XmlEvent::StartElement { name, attributes } => XmlEventView::StartElement {
                name: name@,
                attributes: attributes@.map_values(|a: (String, String)| (a.0@, a.1@)),
            },
            XmlEvent::Characters(t) => XmlEventView::Characters(t@),
            XmlEvent::EndElement { name } => XmlEventView::EndElement { name: name@ },
        }
    }
}

pub open spec fn events_view(s: Seq<XmlEvent>) -> Seq<XmlEventView> {
    s.map_values(|e: XmlEvent| e@)
}

/// Why a value could not be read back from an event stream.
#[derive(Clone, Copy, Debug, PartialEq, Eq, Structural)]
pub enum XmlDecodeError {
    UnexpectedEvent,
    UnexpectedEof,
    InvalidEncoding,
}

/// Why a value could not be written to an event stream.
#[derive(Clone, Copy, Debug, PartialEq, Eq, Structural)]
pub enum EncodeError {
    SinkFailed,
}

/// A sink that collects the events written to it.
#[derive(Debug)]
pub struct XmlEventWriter {
    events: Vec<XmlEvent>,
}

impl View for XmlEventWriter {
    type V = Seq<XmlEventView>;

    closed spec fn view(&self) -> Seq<XmlEventView> {
        events_view(self.events@)
    }
}

impl XmlEventWriter {
    pub fn new() -> (r: XmlEventWriter)
        ensures
            r@ == Seq::<XmlEventView>::empty(),
    {
        XmlEventWriter { events: Vec::new() }
    }

    pub fn write(&mut self, event: XmlEvent) -> (r: Result<(), EncodeError>)
        ensures
            r is Ok,
            final(self)@ == old(self)@.push(event@),
    {
        self.events.push(event);
        proof {
            assert(events_view(self.events@) =~= old(self)@.push(event@));
        }
        Ok(())
    }

    /// The events written so far.
    pub fn into_events(self) -> (r: Vec<XmlEvent>)
        ensures
            events_view(r@) == self@,
    {
        self.events
    }
}

/// A cursor over a stream of events.
#[derive(Debug)]
pub struct EventIterator {
    events: Vec<XmlEvent>,
    pos: usize,
}

impl View for EventIterator {
    type V = Seq<XmlEventView>;

    /// The events that are still to be read.
    closed spec fn view(&self) -> Seq<XmlEventView> {
        events_view(self.events@).skip(self.pos as int)
    }
}

impl EventIterator {
    pub fn from_events(events: Vec<XmlEvent>) -> (r: EventIterator)
        ensures
            r@ == events_view(events@),
    {
        let r = EventIterator { events, pos: 0 };
        proof {
            assert(r@ =~= events_view(events@));
        }
        r
    }

    fn peek(&self) -> (r: Option<&XmlEvent>)
        ensures
            match r {
                Some(e) => self@.len() > 0 && e@ == self@[0],
                None => self@.len() == 0,
            },
    {
        proof {
            use_type_invariant(self);
        }
        if self.pos < self.events.len() {
            Some(&self.events[self.pos])
        } else {
            None
        }
    }

    fn advance(&mut self)
        requires
            old(self)@.len() > 0,
        ensures
            final(self)@ == old(self)@.skip(1),
    {
        let n = self.events.len();
        proof {
            use_type_invariant(&*self);
            assert(events_view(self.events@).len() == self.events@.len());
            assert(self@.len() == self.events@.len() - self.pos);
        }
        self.pos = self.pos + 1;
        proof {
            assert(self@ =~= old(self)@.skip(1));
        }
    }

    #[verifier::type_invariant]
    spec fn inv(&self) -> bool {
        self.pos <= self.events@.len()
    }
}

pub open spec fn binary_string_tag() -> Seq<char> {
    "BinaryString"@
}

pub open spec fn is_wrap_byte(c: u8) -> bool {
    c == 10 || c == 13 || c == 32 || c == 9
}

/// The payload with every line-break, carriage return, space and tab removed.
pub open spec fn strip_wrapping(s: Seq<u8>) -> Seq<u8>
    decreases s.len(),
{
    if s.len() == 0 {
        Seq::empty()
    } else if is_wrap_byte(s.last()) {
        strip_wrapping(s.drop_last())
    } else {
        strip_wrapping(s.drop_last()).push(s.last())
    }
}

/// A symbol of the standard base64 alphabet, or the padding sign.
pub open spec fn is_base64_symbol(c: char) -> bool {
    ('A' <= c <= 'Z') || ('a' <= c <= 'z') || ('0' <= c <= '9') || c == '+' || c == '/' || c == '='
}

/// What base64::encode returns for the given bytes.
pub uninterp spec fn base64_text(b: Seq<u8>) -> Seq<char>;

/// What base64::decode returns for the given text, `None` where it fails.
pub uninterp spec fn base64_decoded(t: Seq<u8>) -> Option<Seq<u8>>;

#[verifier::external_type_specification]
#[verifier::external_body]
pub struct ExBase64DecodeError(base64::DecodeError);

/// Relies on base64::encode: standard alphabet with padding, so the text is
/// made of alphabet symbols only and base64::decode gives the bytes back.
#[verifier::external_body]
fn encode_base64(b: &[u8]) -> (r: String)
    ensures
        r@ == base64_text(b@),
        forall|i: int| 0 <= i < r@.len() ==> is_base64_symbol(#[trigger] r@[i]),
        base64_decoded(encode_utf8(r@)) == Some(b@),
{
    base64::encode(b)
}

/// Relies on base64::decode: decodes the standard alphabet, and fails on a
/// byte outside it or on an invalid length. The result depends on the input
/// alone.
#[verifier::external_body]
fn decode_base64(t: &[u8]) -> (r: Result<Vec<u8>, base64::DecodeError>)
    ensures
        match r {
            Ok(v) => base64_decoded(t@) == Some(v@),
            Err(_) => base64_decoded(t@) is None,
        },
{
    base64::decode(t)
}

/// The events that write the bytes `b` as the property `name`.
pub open spec fn binary_string_events(name: Seq<char>, b: Seq<u8>) -> Seq<XmlEventView> {
    seq![
        XmlEventView::StartElement {
            name: binary_string_tag(),
            attributes: seq![("name"@, name)],
        },
        XmlEventView::Characters(base64_text(b)),
        XmlEventView::EndElement { name: binary_string_tag() },
    ]
}

/// The bytes that a base64 payload stands for, once line wrapping is removed.
pub open spec fn payload_result(t: Seq<char>) -> Result<Seq<u8>, XmlDecodeError> {
    match base64_decoded(strip_wrapping(encode_utf8(t))) {
        Some(b) => Ok(b),
        None => Err(XmlDecodeError::InvalidEncoding),
    }
}

/// What reading one binary-string value from the events `ev` gives, and how
/// many events it consumes on success.
pub open spec fn decode_binary_string(ev: Seq<XmlEventView>) -> (Result<Seq<u8>, XmlDecodeError>, nat) {
    if ev.len() == 0 {
        (Err(XmlDecodeError::UnexpectedEof), 0)
    } else if !(ev[0] matches XmlEventView::StartElement { name, .. } && name == binary_string_tag()) {
        (Err(XmlDecodeError::UnexpectedEvent), 0)
    } else if ev.len() == 1 {
        (Err(XmlDecodeError::UnexpectedEof), 0)
    } else {
        match ev[1] {
            XmlEventView::EndElement { name } => if name == binary_string_tag() {
                (Ok(Seq::empty()), 2)
            } else {
                (Err(XmlDecodeError::UnexpectedEvent), 0)
            },
            XmlEventView::Characters(t) => if ev.len() == 2 {
                (Err(XmlDecodeError::UnexpectedEof), 0)
            } else if ev[2] == (XmlEventView::EndElement { name: binary_string_tag() }) {
                match payload_result(t) {
                    Ok(b) => (Ok(b), 3),
                    Err(e) => (Err(e), 0),
                }
            } else {
                (Err(XmlDecodeError::UnexpectedEvent), 0)
            },
            XmlEventView::StartElement { .. } => (Err(XmlDecodeError::UnexpectedEvent), 0),
        }
    }
}

proof fn lemma_strip_unwrapped(s: Seq<u8>)
    requires
        forall|i: int| 0 <= i < s.len() ==> !is_wrap_byte(#[trigger] s[i]),
    ensures
        strip_wrapping(s) == s,
    decreases s.len(),
{
    if s.len() > 0 {
        lemma_strip_unwrapped(s.drop_last());
        assert(s.drop_last().push(s.last()) =~= s);
    }
}

/// Line wrapping inside a payload does not matter: two payloads that are equal
/// once line-breaks, carriage returns, spaces and tabs are removed decode alike.
pub proof fn lemma_wrapping_ignored(t: Seq<char>, u: Seq<char>)
    requires
        strip_wrapping(encode_utf8(t)) == strip_wrapping(encode_utf8(u)),
    ensures
        payload_result(t) == payload_result(u),
{
}

fn strip_wrapping_bytes(s: &[u8]) -> (r: Vec<u8>)
    ensures
        r@ == strip_wrapping(s@),
{
    let mut out: Vec<u8> = Vec::new();
    let mut i: usize = 0;
    while i < s.len()
        invariant
            i <= s@.len(),
            out@ == strip_wrapping(s@.take(i as int)),
        decreases s@.len() - i,
    {
        let c = s[i];
        proof {
            assert(s@.take(i as int + 1).drop_last() =~= s@.take(i as int));
        }
        if !(c == 10 || c == 13 || c == 32 || c == 9) {
            out.push(c);
        }
        i = i + 1;
    }
    proof {
        assert(s@.take(s@.len() as int) =~= s@);
    }
    out
}

/// Writes `value` as the binary-string property `name`: a start element with
/// a `name` attribute, the base64 payload, and the end element. The payload
/// holds base64 symbols only and decodes, as it stands, to `value`; reading
/// the events back gives `value`.
pub fn serialize_binary_string(writer: &mut XmlEventWriter, name: &str, value: &[u8]) -> (r: Result<(), EncodeError>)
    ensures
        r is Ok,
        final(writer)@ == old(writer)@ + binary_string_events(name@, value@),
        decode_binary_string(binary_string_events(name@, value@)) == (Ok::<Seq<u8>, XmlDecodeError>(value@), 3nat),
        forall|i: int| 0 <= i < base64_text(value@).len() ==> is_base64_symbol(#[trigger] base64_text(value@)[i]),
        base64_decoded(encode_utf8(base64_text(value@))) == Some(value@),
{
    let mut attributes: Vec<(String, String)> = Vec::new();
    attributes.push(("name".to_owned(), name.to_owned()));
    let start = XmlEvent::StartElement { name: "BinaryString".to_owned(), attributes };
    proof {
        assert(start@ == binary_string_events(name@, value@)[0]) by {
            assert(attributes@.map_values(|a: (String, String)| (a.0@, a.1@)) =~= seq![("name"@, name@)]);
        }
    }
    let ghost before = writer@;
    let _ = writer.write(start);
    let payload = encode_base64(value);
    let ghost text = payload@;
    let _ = writer.write(XmlEvent::Characters(payload));
    let _ = writer.write(XmlEvent::EndElement { name: "BinaryString".to_owned() });
    proof {
        assert(writer@ =~= before + binary_string_events(name@, value@));
        assert forall|i: int| 0 <= i < text.len() implies '\0' <= #[trigger] text[i] <= '\u{7f}' by {
            assert(is_base64_symbol(text[i]));
        }
        assert(is_ascii_chars(text));
        let bytes = encode_utf8(text);
        assert forall|i: int| 0 <= i < bytes.len() implies !is_wrap_byte(#[trigger] bytes[i]) by {
            assert(is_base64_symbol(text[i]));
        }
        lemma_strip_unwrapped(bytes);
    }
    Ok(())
}

/// Reads one binary-string value. An element closed at once gives the empty
/// byte string; line wrapping in the payload is ignored.
pub fn deserialize_binary_string(reader: &mut EventIterator) -> (r: Result<Variant, XmlDecodeError>)
    ensures
        ({
            let (res, n) = decode_binary_string(old(reader)@);
            match r {
                Ok(Variant::BinaryString(v)) => res == Ok::<Seq<u8>, XmlDecodeError>(v@) && final(reader)@ == old(reader)@.skip(n as int),
                Ok(_) => false,
                Err(e) => res == Err::<Seq<u8>, XmlDecodeError>(e),
            }
        }),
{
    let tag = "BinaryString".to_owned();
    match reader.peek() {
        None => return Err(XmlDecodeError::UnexpectedEof),
        Some(XmlEvent::StartElement { name, .. }) => {
            if !name.eq(&tag) {
                return Err(XmlDecodeError::UnexpectedEvent);
            }
        },
        Some(_) => return Err(XmlDecodeError::UnexpectedEvent),
    }
    let ghost start = reader@;
    reader.advance();
    let payload: Vec<u8>;
    match reader.peek() {
        None => return Err(XmlDecodeError::UnexpectedEof),
        Some(XmlEvent::EndElement { name }) => {
            if name.eq(&tag) {
                reader.advance();
                proof {
                    assert(reader@ =~= start.skip(2));
                }
                return Ok(Variant::BinaryString(Vec::new()));
            } else {
                return Err(XmlDecodeError::UnexpectedEvent);
            }
        },
        Some(XmlEvent::Characters(t)) => {
            payload = strip_wrapping_bytes(t.as_str().as_bytes());
        },
        Some(XmlEvent::StartElement { .. }) => return Err(XmlDecodeError::UnexpectedEvent),
    }
    reader.advance();
    match reader.peek() {
        None => return Err(XmlDecodeError::UnexpectedEof),
        Some(XmlEvent::EndElement { name }) => {
            if !name.eq(&tag) {
                return Err(XmlDecodeError::UnexpectedEvent);
            }
        },
        Some(_) => return Err(XmlDecodeError::UnexpectedEvent),
    }
    reader.advance();
    match decode_base64(payload.as_slice()) {
        Ok(v) => {
            proof {
                assert(reader@ =~= start.skip(3));
            }
            Ok(Variant::BinaryString(v))
        },
        Err(_) => Err(XmlDecodeError::InvalidEncoding),
    }
}

} // verus!
