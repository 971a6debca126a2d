//! Streaming well-formedness check.
//!
//! quick-xml events are pulled until end of input; the first parse error
//! becomes an issue and reading stops (further events would be
//! untrustworthy).

use vstd::prelude::*;
use crate::text::{chars_of, decimal, push_chars, push_decimal};
use crate::validate::codes;
use crate::validate::{issue_view, Issue, IssueView, Severity};
use crate::xml::{lemma_scan_finish, scan, scan_all, XmlCursor, XmlEvent};

verus! {

pub open spec fn skip_all() -> spec_fn((), XmlEvent) -> () {
    |s: (), e: XmlEvent| s
}

/// The event that ends reading `src` untrimmed: end of input or the first
/// parse error.
pub open spec fn final_event(src: Seq<u8>) -> Option<XmlEvent> {
    scan_all(src, false, (), skip_all()).1
}

/// The issue for the first parse error of `src`, if reading stops on one:
/// an `MBZ-XML-PARSE` error at "byte <position>" with the parser's message.
pub open spec fn parse_issue(xml_name: Seq<char>, src: Seq<u8>) -> Option<IssueView> {
    match final_event(src) {
        Some(XmlEvent::Error { position, message }) => Some(
            issue_view(
                codes::XML_PARSE@,
                Severity::Error,
                xml_name,
                "byte "@ + decimal(position as nat),
                "XML parse error: "@ + message@,
            ),
        ),
        _ => None,
    }
}

/// None when `bytes` reads to the end without a parse error; otherwise an
/// `MBZ-XML-PARSE` error at "byte <position>" with the parser's message.
pub fn check(xml_name: &str, bytes: &[u8]) -> (r: Option<Issue>)
    ensures
        match r {
            Some(i) => parse_issue(xml_name@, bytes@) == Some(i@),
            None => parse_issue(xml_name@, bytes@) is None,
        },
{
    let mut cur = XmlCursor::open(bytes, false);
    loop
        invariant_except_break
            cur.src() == bytes@,
            !cur.trim(),
            cur.count() <= bytes@.len(),
            scan(bytes@, false, cur.count(), (), skip_all()).1 is None,
        ensures
            match final_event(bytes@) {
                Some(XmlEvent::Error { position, message }) => false,
                _ => true,
            },
        decreases bytes@.len() + 1 - cur.count(),
    {
        let ghost k = cur.count();
        let ev = cur.next();
        match ev {
            XmlEvent::Eof => {
                proof {
                    lemma_scan_finish(bytes@, false, k, (), skip_all());
                }
                return None;
            },
            XmlEvent::Error { position, message } => {
                proof {
                    lemma_scan_finish(bytes@, false, k, (), skip_all());
                }
                let mut loc = chars_of("byte ");
                push_decimal(&mut loc, position);
                let mut msg = chars_of("XML parse error: ");
                push_chars(&mut msg, message.as_slice());
                let file = chars_of(xml_name);
                return Some(Issue::of_chars(codes::XML_PARSE, Severity::Error, file.as_slice(), loc.as_slice(), msg.as_slice()));
            },
            _ => {},
        }
    }
}

} // verus!
