//! The page scanner: a state machine over the events of an XML dump that
//! pairs each admissible page title with the page's text.
use crate::text::{is_admissible, is_valid_title, normalize, normalized};
use vstd::prelude::*;

verus! {

/// What the scanner is reading.
#[derive(Clone, Copy, Debug, PartialEq, Eq, Structural)]
pub enum ParserState {
    Idle,
    ReadingTitle,
    ReadingBody,
}

/// The events of the dump that the scanner tells apart.
pub enum XmlEvent {
    /// A `<title>` element starts.
    StartTitle,
    /// A `<text>` element starts.
    StartText,
    /// Another element starts.
    StartOther,
    /// Character data, unescaped.
    Text(String),
    /// An element ends.
    End,
    /// Anything else (comments, declarations, empty elements).
    Other,
}

/// The scanner's state: what it reads, and the admissible title of the
/// current page, if any.
pub struct PageScanner {
    pub state: ParserState,
    pub source_name: Option<String>,
}

/// The title that a scanner holds, as characters.
pub open spec fn held(s: Option<String>) -> Option<Seq<char>> {
    match s {
        Some(n) => Some(n@),
        None => None,
    }
}

impl PageScanner {
    /// A body is only read for a page with an admissible title.
    pub open spec fn wf(&self) -> bool {
        self.state == ParserState::ReadingBody ==> self.source_name is Some
    }

    /// A scanner at the start of a dump.
    pub fn new() -> (r: PageScanner)
        ensures
            r.wf(),
            r.state == ParserState::Idle,
            r.source_name is None,
    {
        PageScanner { state: ParserState::Idle, source_name: None }
    }

    /// Takes one event; returns the title and text of a page when the event
    /// completes one.
    pub fn step(&mut self, event: XmlEvent) -> (r: Option<(String, String)>)
        requires
            old(self).wf(),
        ensures
            final(self).wf(),
            match event {
                XmlEvent::StartTitle => final(self).state == ParserState::ReadingTitle && held(
                    final(self).source_name,
                ) == held(old(self).source_name) && r is None,
                XmlEvent::StartText => final(self).state == (if old(self).source_name is Some {
                    ParserState::ReadingBody
                } else {
                    old(self).state
                }) && held(final(self).source_name) == held(old(self).source_name) && r is None,
                XmlEvent::Text(t) => final(self).state == ParserState::Idle && match old(self).state {
                    ParserState::ReadingTitle => r is None && held(final(self).source_name) == (if is_admissible(normalized(t@)) {
                        Some(normalized(t@))
                    } else {
                        None
                    }),
                    ParserState::ReadingBody => final(self).source_name is None && (r matches Some(
                        page,
                    ) && Some(page.0@) == held(old(self).source_name) && page.1@ == t@),
                    ParserState::Idle => r is None && held(final(self).source_name) == held(
                        old(self).source_name,
                    ),
                },
                XmlEvent::End => final(self).state == ParserState::Idle && held(final(self).source_name)
                    == held(old(self).source_name) && r is None,
                _ => final(self).state == old(self).state && held(final(self).source_name) == held(
                    old(self).source_name,
                ) && r is None,
            },
    {
        match event {
            XmlEvent::StartTitle => {
                self.state = ParserState::ReadingTitle;
                None
            },
            XmlEvent::StartText => {
                if self.source_name.is_some() {
                    self.state = ParserState::ReadingBody;
                }
                None
            },
            XmlEvent::Text(text) => {
                let out = match self.state {
                    ParserState::ReadingTitle => {
                        let name = normalize(text.as_str());
                        if is_valid_title(name.as_str()) {
                            self.source_name = Some(name);
                        } else {
                            self.source_name = None;
                        }
                        None
                    },
                    ParserState::ReadingBody => {
                        let taken = self.source_name.take();
                        match taken {
                            Some(name) => Some((name, text)),
                            None => None,
                        }
                    },
                    ParserState::Idle => None,
                };
                self.state = ParserState::Idle;
                out
            },
            XmlEvent::End => {
                self.state = ParserState::Idle;
                None
            },
            _ => None,
        }
    }
}

} // verus!
