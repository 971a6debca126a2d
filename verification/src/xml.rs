//! Pull-parsing of XML through quick-xml, seen by the library as a sequence
//! of plain events.
//!
//! The `k`-th event that quick-xml's reader produces for an input depends
//! only on the input bytes, the `trim_text` setting and `k`; it is named
//! `xml_event`. Every consumer in this crate reads events until the first
//! end-of-input or error event, and its result is stated as a fold (`scan`)
//! over that prefix.

use vstd::prelude::*;
use quick_xml::events::Event;
use quick_xml::Reader;

verus! {

/// One `key="value"` attribute, both sides decoded lossily from UTF-8; the
/// value is the raw attribute text (entities not expanded).
pub struct XmlAttr {
    pub key: Vec<char>,
    pub value: Vec<char>,
}

/// An event of quick-xml's reader, as the library sees it.
pub enum XmlEvent {
    /// `<name attrs...>`
    Start { name: Vec<char>, attrs: Vec<XmlAttr> },
    /// `<name attrs.../>`
    Empty { name: Vec<char>, attrs: Vec<XmlAttr> },
    /// `</name>`
    End { name: Vec<char> },
    /// Character data with entities expanded; empty when expansion failed.
    Text { text: Vec<char> },
    /// `<![CDATA[...]]>` contents, decoded lossily.
    CData { text: Vec<char> },
    /// Declarations, comments, processing instructions, doctype.
    Other,
    /// End of input.
    Eof,
    /// A parse error: reader position and the error's message.
    Error { position: u64, message: Vec<char> },
}

/// The `index`-th event quick-xml's `Reader` yields for `src` with
/// `trim_text(trim)` set (counting from 0).
pub uninterp spec fn xml_event(src: Seq<u8>, trim: bool, index: nat) -> XmlEvent;

/// End of input or error: consumers stop there.
pub open spec fn is_terminal(e: XmlEvent) -> bool {
    e is Eof || e is Error
}

#[verifier::external_type_specification]
#[verifier::external_body]
#[verifier::reject_recursive_types(R)]
pub struct ExReader<R>(Reader<R>);

#[verifier::external_type_specification]
#[verifier::external_body]
pub struct ExEvent<'a>(Event<'a>);

/// Which kind of event was read last.
#[derive(PartialEq, Eq, Structural)]
pub enum EventKind {
    Start,
    Empty,
    End,
    Text,
    CData,
    Other,
    Eof,
    Error,
}

/// The kind of an event.
pub open spec fn kind_of(e: XmlEvent) -> EventKind {
    match e {
        XmlEvent::Start { .. } => EventKind::Start,
        XmlEvent::Empty { .. } => EventKind::Empty,
        XmlEvent::End { .. } => EventKind::End,
        XmlEvent::Text { .. } => EventKind::Text,
        XmlEvent::CData { .. } => EventKind::CData,
        XmlEvent::Other => EventKind::Other,
        XmlEvent::Eof => EventKind::Eof,
        XmlEvent::Error { .. } => EventKind::Error,
    }
}

/// A reader over a byte slice, with the count of events already read and
/// the last event read (or its error: reader position and message).
pub struct XmlCursor<'a> {
    reader: Reader<&'a [u8]>,
    buf: Vec<u8>,
    last: Result<Event<'static>, (u64, String)>,
    src: Ghost<Seq<u8>>,
    trim: Ghost<bool>,
    count: Ghost<nat>,
}

impl<'a> XmlCursor<'a> {
    pub closed spec fn src(&self) -> Seq<u8> {
        self.src@
    }

    pub closed spec fn trim(&self) -> bool {
        self.trim@
    }

    /// Number of events read so far.
    pub closed spec fn count(&self) -> nat {
        self.count@
    }

    /// The event read last.
    pub open spec fn last_event(&self) -> XmlEvent {
        xml_event(self.src(), self.trim(), (self.count() - 1) as nat)
    }

    /// Start reading `bytes` with `trim_text(trim)`.
    ///
    /// Trusted: `Reader::from_reader` and `Config::trim_text`. The contract
    /// only records the input and the setting; no event has been read.
    #[verifier::external_body]
    pub(crate) fn open(bytes: &'a [u8], trim: bool) -> (c: XmlCursor<'a>)
        ensures
            c.src() == bytes@,
            c.trim() == trim,
            c.count() == 0,
    {
        let mut reader = Reader::from_reader(bytes);
        reader.config_mut().trim_text(trim);
        XmlCursor { reader, buf: Vec::new(), last: Ok(Event::Eof), src: Ghost(bytes@), trim: Ghost(trim), count: Ghost(0) }
    }

    /// Read the next event and tell its kind.
    ///
    /// Trusted: `Reader::read_event_into` (and `buffer_position` on error).
    /// Claims that the event read is the one named `xml_event` at the
    /// current count, and that no event at index `src.len()` or later is
    /// anything but end of input or an error: the slice reader consumes at
    /// least one input byte for every other event (`read_text`, `read_with`,
    /// `read_bang_element` in quick-xml's `slice_reader`/`buffered_reader`),
    /// and enters its `Done` state, which only yields `Eof`, once the input
    /// is used up.
    #[verifier::external_body]
    fn advance(&mut self) -> (k: EventKind)
        ensures
            k == kind_of(xml_event(old(self).src(), old(self).trim(), old(self).count())),
            old(self).count() >= old(self).src().len() ==> is_terminal(
                xml_event(old(self).src(), old(self).trim(), old(self).count()),
            ),
            final(self).src() == old(self).src(),
            final(self).trim() == old(self).trim(),
            final(self).count() == old(self).count() + 1,
    {
        self.buf.clear();
        self.last = match self.reader.read_event_into(&mut self.buf) {
            Ok(e) => Ok(e.into_owned()),
            Err(e) => Err((self.reader.buffer_position(), e.to_string())),
        };
        match &self.last {
            Ok(Event::Start(_)) => EventKind::Start,
            Ok(Event::Empty(_)) => EventKind::Empty,
            Ok(Event::End(_)) => EventKind::End,
            Ok(Event::Text(_)) => EventKind::Text,
            Ok(Event::CData(_)) => EventKind::CData,
            Ok(Event::Eof) => EventKind::Eof,
            Ok(_) => EventKind::Other,
            Err(_) => EventKind::Error,
        }
    }

    /// The element name of the last event, decoded lossily from UTF-8.
    ///
    /// Trusted: `BytesStart::name` / `BytesEnd::name` and
    /// `String::from_utf8_lossy`; the result is the name the last event
    /// (`xml_event`) carries.
    #[verifier::external_body]
    fn last_name(&self) -> (r: Vec<char>)
        requires
            self.count() > 0,
        ensures
            match self.last_event() {
                XmlEvent::Start { name, .. } => r == name,
                XmlEvent::Empty { name, .. } => r == name,
                XmlEvent::End { name } => r == name,
                _ => true,
            },
    {
        let cv = |b: &[u8]| String::from_utf8_lossy(b).chars().collect::<Vec<char>>();
        match &self.last {
            Ok(Event::Start(e)) => cv(e.name().as_ref()),
            Ok(Event::Empty(e)) => cv(e.name().as_ref()),
            Ok(Event::End(e)) => cv(e.name().as_ref()),
            _ => Vec::new(),
        }
    }

    /// The attributes of the last start tag, keys and raw values decoded
    /// lossily from UTF-8, malformed attributes skipped.
    ///
    /// Trusted: `BytesStart::attributes` with `flatten` and
    /// `String::from_utf8_lossy`; the result is the attribute list the last
    /// event (`xml_event`) carries.
    #[verifier::external_body]
    fn last_attrs(&self) -> (r: Vec<XmlAttr>)
        requires
            self.count() > 0,
        ensures
            match self.last_event() {
                XmlEvent::Start { attrs, .. } => r == attrs,
                XmlEvent::Empty { attrs, .. } => r == attrs,
                _ => true,
            },
    {
        let cv = |b: &[u8]| String::from_utf8_lossy(b).chars().collect::<Vec<char>>();
        let at = |e: &quick_xml::events::BytesStart| e.attributes().flatten().map(|a| XmlAttr { key: cv(a.key.as_ref()), value: cv(&a.value) }).collect();
        match &self.last {
            Ok(Event::Start(e)) => at(e),
            Ok(Event::Empty(e)) => at(e),
            _ => Vec::new(),
        }
    }

    /// The text of the last text or CDATA event.
    ///
    /// Trusted: `BytesText::unescape` (empty when it fails) and, for CDATA,
    /// `String::from_utf8_lossy`; the result is the text the last event
    /// (`xml_event`) carries.
    #[verifier::external_body]
    fn last_text(&self) -> (r: Vec<char>)
        requires
            self.count() > 0,
        ensures
            match self.last_event() {
                XmlEvent::Text { text } => r == text,
                XmlEvent::CData { text } => r == text,
                _ => true,
            },
    {
        match &self.last {
            Ok(Event::Text(t)) => t.unescape().unwrap_or_default().chars().collect(),
            Ok(Event::CData(c)) => String::from_utf8_lossy(c.as_ref()).chars().collect(),
            _ => Vec::new(),
        }
    }

    /// The reader position and message of the last event's error.
    ///
    /// Trusted: `Reader::buffer_position` and the error's `Display`, taken
    /// when the error was read; the result is what the last event
    /// (`xml_event`) carries.
    #[verifier::external_body]
    fn last_error(&self) -> (r: (u64, Vec<char>))
        requires
            self.count() > 0,
        ensures
            match self.last_event() {
                XmlEvent::Error { position, message } => r.0 == position && r.1 == message,
                _ => true,
            },
    {
        match &self.last {
            Err((p, m)) => (*p, m.chars().collect()),
            _ => (0, Vec::new()),
        }
    }

    /// Read the next event: the event named `xml_event` at the current
    /// count; at or past the end of the input only end of input or an error.
    pub fn next(&mut self) -> (ev: XmlEvent)
        ensures
            ev == xml_event(old(self).src(), old(self).trim(), old(self).count()),
            old(self).count() >= old(self).src().len() ==> is_terminal(ev),
            final(self).src() == old(self).src(),
            final(self).trim() == old(self).trim(),
            final(self).count() == old(self).count() + 1,
    {
        let k = self.advance();
        match k {
            EventKind::Start => {
                let name = self.last_name();
                let attrs = self.last_attrs();
                XmlEvent::Start { name, attrs }
            },
            EventKind::Empty => {
                let name = self.last_name();
                let attrs = self.last_attrs();
                XmlEvent::Empty { name, attrs }
            },
            EventKind::End => XmlEvent::End { name: self.last_name() },
            EventKind::Text => XmlEvent::Text { text: self.last_text() },
            EventKind::CData => XmlEvent::CData { text: self.last_text() },
            EventKind::Other => XmlEvent::Other,
            EventKind::Eof => XmlEvent::Eof,
            EventKind::Error => {
                let (position, message) = self.last_error();
                XmlEvent::Error { position, message }
            },
        }
    }
}

/// Fold `step` over the events of `src` with index below `k`, stopping at the
/// first end-of-input or error event. Returns the folded state and the
/// terminal event if one was reached.
pub open spec fn scan<S>(
    src: Seq<u8>,
    trim: bool,
    k: nat,
    init: S,
    step: spec_fn(S, XmlEvent) -> S,
) -> (S, Option<XmlEvent>)
    decreases k,
{
    if k == 0 {
        (init, None)
    } else {
        let prev = scan(src, trim, (k - 1) as nat, init, step);
        if prev.1 is Some {
            prev
        } else {
            let e = xml_event(src, trim, (k - 1) as nat);
            if is_terminal(e) {
                (prev.0, Some(e))
            } else {
                (step(prev.0, e), None)
            }
        }
    }
}

/// The fold over the whole input: every event up to the first terminal one.
pub open spec fn scan_all<S>(
    src: Seq<u8>,
    trim: bool,
    init: S,
    step: spec_fn(S, XmlEvent) -> S,
) -> (S, Option<XmlEvent>) {
    scan(src, trim, (src.len() + 1) as nat, init, step)
}

/// Once a terminal event has been reached, further indices change nothing.
pub proof fn lemma_scan_stable<S>(
    src: Seq<u8>,
    trim: bool,
    k: nat,
    j: nat,
    init: S,
    step: spec_fn(S, XmlEvent) -> S,
)
    requires
        k <= j,
        scan(src, trim, k, init, step).1 is Some,
    ensures
        scan(src, trim, j, init, step) == scan(src, trim, k, init, step),
    decreases j - k,
{
    if j > k {
        lemma_scan_stable(src, trim, k, (j - 1) as nat, init, step);
    }
}

/// After reading a terminal event at index `k`, the whole-input fold is known.
pub proof fn lemma_scan_finish<S>(
    src: Seq<u8>,
    trim: bool,
    k: nat,
    init: S,
    step: spec_fn(S, XmlEvent) -> S,
)
    requires
        k <= src.len(),
        scan(src, trim, k, init, step).1 is None,
        is_terminal(xml_event(src, trim, k)),
    ensures
        scan_all(src, trim, init, step) == (
            scan(src, trim, k, init, step).0,
            Some(xml_event(src, trim, k)),
        ),
{
    lemma_scan_stable(src, trim, k + 1, (src.len() + 1) as nat, init, step);
}

/// A property kept by every step holds of the fold.
pub proof fn lemma_scan_inv<S>(
    src: Seq<u8>,
    trim: bool,
    k: nat,
    init: S,
    step: spec_fn(S, XmlEvent) -> S,
    inv: spec_fn(S) -> bool,
)
    requires
        inv(init),
        forall|j: nat, s: S|
            #![trigger inv(step(s, xml_event(src, trim, j)))]
            j < k && inv(s) && !is_terminal(xml_event(src, trim, j)) ==> inv(
                step(s, xml_event(src, trim, j)),
            ),
    ensures
        inv(scan(src, trim, k, init, step).0),
    decreases k,
{
    if k > 0 {
        lemma_scan_inv(src, trim, (k - 1) as nat, init, step, inv);
        let prev = scan(src, trim, (k - 1) as nat, init, step);
        if prev.1 is None && !is_terminal(xml_event(src, trim, (k - 1) as nat)) {
            assert(inv(step(prev.0, xml_event(src, trim, (k - 1) as nat))));
        }
    }
}

} // verus!
