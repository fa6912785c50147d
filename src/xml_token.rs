//! Splits a document into tokens: processing instructions, element starts, attributes, the
//! ends of tags, and text.
use vstd::prelude::*;
use crate::error::{StreamError, StreamResult, SvgError, SvgErrorType, SvgResult};
use crate::span::{QName, Span};
use crate::stream::{SvgStream, run_end, skip_spaces_end, name_token, lemma_skip_spaces_ge, comment_open};

verus! {

/// How a tag ends.
#[derive(Debug)]
pub enum ElementControl<'a> {
    /// `>`: the element has content.
    Open,
    /// `</name>`: the element ends.
    Close(QName<'a>),
    /// `/>`: the element has no content.
    EmptyTag,
}

/// `name="value"` in a tag.
#[derive(Debug)]
pub struct Attribute<'a> {
    pub qname: QName<'a>,
    pub value: Span<'a>,
    pub span: Span<'a>,
}

/// `<?target content?>`
#[derive(Debug)]
pub struct ProcessingInstruction<'a> {
    pub target: Span<'a>,
    pub content: Option<Span<'a>>,
}

#[derive(Debug)]
pub enum Token<'a> {
    /// `<?xml version="1.0"?>`
    ProcessingInstruction { processing_instruction: ProcessingInstruction<'a>, span: Span<'a> },
    /// `<name`
    ElementStart { qname: QName<'a>, span: Span<'a> },
    /// `name="value"`
    Attribute(Attribute<'a>),
    /// The end of a tag.
    ElementControl { control: ElementControl<'a>, span: Span<'a> },
    /// Text between tags.
    Text { span: Span<'a> },
}

/// What the tokeniser expects next.
#[derive(Debug, Clone, Copy, PartialEq, Eq, Structural)]
pub enum State {
    /// Text and tags.
    Elements,
    /// Attributes of the tag being read.
    Attributes,
    /// White space and processing instructions after the root element.
    AfterElements,
    End,
}

/// `tok` is the start of an element read from offset `p` to offset `q` of `t`: `<` and a name.
pub open spec fn element_start_at(t: Seq<u8>, p: int, q: int, tok: Token) -> bool {
    tok matches Token::ElementStart { qname, span } && span.start == p && span.text@ == t.subrange(p, q)
        && qname.span.start == p + 1 && qname.span.text@ == t.subrange(p + 1, q)
}

/// `tok` is the end of an element read from offset `p` to offset `q` of `t`: `</`, a name,
/// white space and `>`.
pub open spec fn close_at(t: Seq<u8>, p: int, q: int, tok: Token) -> bool {
    tok matches Token::ElementControl { control: ElementControl::Close(qname), span } && span.start
        == p && span.text@ == t.subrange(p, q) && qname.span.start == p + 2 && p + 2 < q <= t.len()
        && t[q - 1] == 62
}

/// `tok` was read in a tag from offset `p` (past white space) to offset `q` of `t`: `/>`,
/// `>`, or an attribute `name="value"` whose value is what stands between its quotes.
pub open spec fn attribute_at(t: Seq<u8>, p: int, q: int, tok: Token) -> bool {
    match tok {
        Token::ElementControl { control, span } => span.start == p && span.text@ == t.subrange(p, q)
            && match control {
            ElementControl::EmptyTag => q == p + 2 && t[p] == 47 && t[p + 1] == 62,
            ElementControl::Open => q == p + 1 && t[p] == 62,
            ElementControl::Close(_) => false,
        },
        Token::Attribute(a) => {
            &&& a.span.start == p
            &&& a.span.text@ == t.subrange(p, q)
            &&& a.qname.span.start == p
            &&& 1 <= a.value.start
            &&& a.value.start + a.value.text@.len() < q <= t.len()
            &&& a.value.text@ == t.subrange(a.value.start as int, a.value.start + a.value.text@.len())
            &&& (t[a.value.start - 1] == 34 || t[a.value.start - 1] == 39)
            &&& t[a.value.start + a.value.text@.len()] == t[a.value.start - 1]
            &&& forall|k: int| 0 <= k < a.value.text@.len() ==> #[trigger] a.value.text@[k] != t[a.value.start - 1]
        },
        _ => false,
    }
}

/// Reads tokens one after the other from a stream.
#[derive(Debug)]
pub struct Tokeniser<'a> {
    stream: SvgStream<'a>,
    state: State,
    depth: usize,
}

impl<'a> Tokeniser<'a> {
    /// Every open element took at least one byte of the text read so far.
    pub closed spec fn wf(&self) -> bool {
        self.depth <= self.stream.pos() <= self.stream.text().len()
    }

    /// The text being read.
    pub closed spec fn text(&self) -> Seq<u8> {
        self.stream.text()
    }

    /// A well-formed tokeniser is within its text.
    pub proof fn lemma_within(&self)
        requires
            self.wf(),
        ensures
            0 <= self.pos() <= self.text().len(),
    {
    }

    /// The offset of the next token.
    pub closed spec fn pos(&self) -> int {
        self.stream.pos()
    }

    /// What the tokeniser expects next.
    pub closed spec fn state(&self) -> State {
        self.state
    }

    /// How many elements are open.
    pub closed spec fn depth(&self) -> int {
        self.depth as int
    }

    /// A tokeniser that starts at the cursor of `stream`.
    pub fn new(stream: SvgStream<'a>) -> (r: Tokeniser<'a>)
        ensures
            r.text() == stream.text(),
            r.pos() == stream.pos(),
            r.state() == State::Elements,
            r.depth() == 0,
            r.wf(),
    {
        // the cursor lies within the text
        let _ = stream.source_len();
        Tokeniser { stream, state: State::Elements, depth: 0 }
    }

    fn wrap<T>(&self, r: StreamResult<T>, kind: SvgErrorType, start: usize) -> (out: SvgResult<T>)
        requires
            start <= self.text().len(),
        ensures
            r is Ok ==> out == Ok::<T, SvgError>(r->Ok_0),
            r is Err ==> out is Err,
    {
        match r {
            Ok(v) => Ok(v),
            Err(e) => Err(SvgError(kind, e, self.stream.create_err(start))),
        }
    }

    /// Reads the next token, or returns `None` at the end of the text.
    pub fn parse_next(&mut self) -> (r: Option<SvgResult<Token<'a>>>)
        requires
            old(self).wf(),
        ensures
            final(self).wf(),
            final(self).text() == old(self).text(),
            old(self).pos() <= final(self).pos() <= final(self).text().len(),
            old(self).pos() >= old(self).text().len() ==> r is None,
            r matches Some(Ok(_)) ==> old(self).pos() < final(self).pos(),
            r matches Some(Ok(Token::Text { span })) ==> span.text@.len() <= old(self).text().len(),
            old(self).state() == State::End ==> r is None,
            old(self).state() == State::Elements && old(self).pos() + 1 < old(self).text().len() && old(
                self,
            ).text()[old(self).pos()] == 60 && old(self).text()[old(self).pos() + 1] != 47 && old(
                self,
            ).text()[old(self).pos() + 1] != 63 && old(self).text()[old(self).pos() + 1] != 33
                && name_token(old(self).text(), old(self).pos() + 1, true) is None ==> (r is Some
                && r->Some_0 is Err),
            old(self).state() == State::Elements && old(self).pos() < old(self).text().len() && old(
                self,
            ).text()[old(self).pos()] != 60 ==> final(self).state() == State::Elements,
            ({
                let t = old(self).text();
                let p = old(self).pos();
                &&& old(self).state() == State::Elements && p + 1 < t.len() && t[p] == 60 && t[p + 1]
                    != 47 && t[p + 1] != 63 && t[p + 1] != 33 && r is Some && r->Some_0 is Ok
                    ==> element_start_at(t, p, final(self).pos(), r->Some_0->Ok_0)
                &&& old(self).state() == State::Elements && p + 1 < t.len() && t[p] == 60 && t[p + 1]
                    == 47 && r is Some && r->Some_0 is Ok ==> close_at(t, p, final(self).pos(), r->Some_0->Ok_0)
                &&& old(self).state() == State::Attributes && r is Some && r->Some_0 is Ok ==> attribute_at(
                    t,
                    skip_spaces_end(t, p),
                    final(self).pos(),
                    r->Some_0->Ok_0,
                )
            }),
            ({
                let t = old(self).text();
                let p = old(self).pos();
                let s0 = old(self).state();
                let d0 = old(self).depth();
                &&& s0 == State::Elements && p + 1 < t.len() && t[p] == 60 && t[p + 1] != 47 && t[p
                    + 1] != 63 && t[p + 1] != 33 ==> final(self).state() == State::Attributes
                    && final(self).depth() == d0
                &&& s0 == State::Elements && p + 1 < t.len() && t[p] == 60 && t[p + 1] == 47 ==> ({
                    let d1 = if d0 > 0 { d0 - 1 } else { 0 };
                    &&& final(self).depth() == d1
                    &&& d1 == 0 ==> final(self).state() == State::AfterElements
                    &&& d1 != 0 ==> final(self).state() == State::Elements
                })
                &&& s0 == State::Elements && p + 1 == t.len() && t[p] == 60 ==> r is None
                &&& s0 == State::Attributes && (r matches Some(
                    Ok(Token::ElementControl { control: ElementControl::Open, .. }),
                )) ==> final(self).depth() == d0 + 1 && final(self).state() == State::Elements
                &&& s0 == State::Attributes && (r matches Some(
                    Ok(Token::ElementControl { control: ElementControl::EmptyTag, .. }),
                )) ==> final(self).depth() == d0 && final(self).state() == if d0 == 0 {
                    State::AfterElements
                } else {
                    State::Elements
                }
                &&& s0 == State::Attributes && !(r matches Some(Ok(Token::ElementControl { .. })))
                    ==> final(self).state() == State::Attributes && final(self).depth() == d0
            }),
            ({
                let t = old(self).text();
                let p = old(self).pos();
                old(self).state() == State::Elements && p < t.len() && t[p] != 60 ==> (r matches Some(
                    Ok(Token::Text { span }),
                ) && span.start == p && final(self).pos() == run_end(t, p, |b: u8| b != 60)
                    && span.text@ == t.subrange(p, final(self).pos()))
            }),
        decreases old(self).text().len() - old(self).pos(),
    {
        // the cursor lies within the text
        let _ = self.stream.source_len();
        if self.stream.at_end() {
            return None;
        }
        let start = self.stream.byte_pos();
        match self.state {
            State::Elements => {
                let current = self.stream.current_byte_unchecked();
                if current != 60u8 {
                    return Some(Self::consume_text(&mut self.stream));
                }
                match self.stream.peek() {
                    Ok(next) => {
                        if next == 47u8 {
                            if self.depth > 0 {
                                self.depth = self.depth - 1;
                            }
                            if self.depth == 0 {
                                self.state = State::AfterElements;
                            }
                            let r = Self::parse_close_element(&mut self.stream);
                            Some(self.wrap(r, SvgErrorType::InvalidElement, start))
                        } else if next == 63u8 {
                            let r = Self::parse_processor(&mut self.stream);
                            Some(self.wrap(r, SvgErrorType::InvalidProcessor, start))
                        } else if next == 33u8 {
                            let open: [u8; 4] = [60u8, 33u8, 45u8, 45u8];
                            assert(open@ == comment_open());
                            if self.stream.starts_with(open.as_slice()) {
                                self.stream.skip_spaces();
                                proof {
                                    let t = self.text();
                                    lemma_skip_spaces_ge(t, start + 1, true);
                                }
                                self.parse_next()
                            } else {
                                Some(
                                    Err(
                                        SvgError(
                                            SvgErrorType::UnknownToken,
                                            StreamError::InvalidValue,
                                            self.stream.create_err(start),
                                        ),
                                    ),
                                )
                            }
                        } else {
                            self.state = State::Attributes;
                            let r = Self::parse_start_element(&mut self.stream);
                            Some(self.wrap(r, SvgErrorType::InvalidElement, start))
                        }
                    },
                    Err(_) => None,
                }
            },
            State::Attributes => {
                let attribute = Self::parse_attribute(&mut self.stream);
                match &attribute {
                    Ok(Token::ElementControl { control, .. }) => {
                        match control {
                            ElementControl::Open => {
                                self.depth = self.depth + 1;
                            },
                            _ => {},
                        }
                        if self.depth == 0 {
                            self.state = State::AfterElements;
                        } else {
                            self.state = State::Elements;
                        }
                    },
                    _ => {},
                }
                Some(self.wrap(attribute, SvgErrorType::InvalidAttribute, start))
            },
            State::AfterElements => {
                self.stream.skip_spaces();
                let two: [u8; 2] = [60u8, 63u8];
                if start != self.stream.byte_pos() {
                    self.parse_next()
                } else if self.stream.starts_with(two.as_slice()) {
                    let r = Self::parse_processor(&mut self.stream);
                    Some(self.wrap(r, SvgErrorType::InvalidProcessor, start))
                } else {
                    Some(
                        Err(
                            SvgError(
                                SvgErrorType::UnknownToken,
                                StreamError::InvalidValue,
                                self.stream.create_err(start),
                            ),
                        ),
                    )
                }
            },
            State::End => None,
        }
    }

    /// `<name`
    fn parse_start_element(stream: &mut SvgStream<'a>) -> (r: StreamResult<Token<'a>>)
        requires
            old(stream).pos() < old(stream).text().len(),
        ensures
            name_token(old(stream).text(), old(stream).pos() + 1, true) is None ==> r is Err,
            r is Ok ==> element_start_at(old(stream).text(), old(stream).pos(), final(stream).pos(), r->Ok_0),
            r is Ok ==> !(r->Ok_0 is Text),
            final(stream).text() == old(stream).text(),
            old(stream).pos() < final(stream).pos() <= final(stream).text().len(),
    {
        let start = stream.byte_pos();
        stream.advance(1);
        let qname = stream.consume_qname()?;
        let span = stream.slice_to_current(start);
        Ok(Token::ElementStart { qname, span })
    }

    /// An attribute, `>` or `/>`, after white space.
    fn parse_attribute(stream: &mut SvgStream<'a>) -> (r: StreamResult<Token<'a>>)
        ensures
            r is Ok ==> attribute_at(
                old(stream).text(),
                skip_spaces_end(old(stream).text(), old(stream).pos()),
                final(stream).pos(),
                r->Ok_0,
            ),
            r is Ok ==> !(r->Ok_0 is Text),
            final(stream).text() == old(stream).text(),
            old(stream).pos() <= final(stream).pos() <= final(stream).text().len(),
            r is Ok ==> old(stream).pos() < final(stream).pos(),
    {
        stream.skip_spaces();
        let start = stream.byte_pos();
        let current = stream.current_byte()?;
        if current == 47u8 {
            stream.advance(1);
            stream.consume_byte(62u8)?;
            let span = stream.slice_to_current(start);
            return Ok(Token::ElementControl { control: ElementControl::EmptyTag, span });
        } else if current == 62u8 {
            stream.advance(1);
            let span = stream.slice_to_current(start);
            return Ok(Token::ElementControl { control: ElementControl::Open, span });
        }
        let qname = stream.consume_qname()?;
        stream.consume_equals()?;
        let quote = stream.consume_quote()?;
        let value = stream.consume_bytes(|c: u8| -> (k: bool) ensures k == (c != quote) { c != quote });
        stream.consume_byte(quote)?;
        let span = stream.slice_to_current(start);
        Ok(Token::Attribute(Attribute { qname, value, span }))
    }

    /// Text up to the next `<`.
    fn consume_text(stream: &mut SvgStream<'a>) -> (r: SvgResult<Token<'a>>)
        requires
            old(stream).pos() < old(stream).text().len(),
            old(stream).text()[old(stream).pos()] != 60,
        ensures
            final(stream).text() == old(stream).text(),
            final(stream).pos() == run_end(old(stream).text(), old(stream).pos(), |b: u8| b != 60),
            r matches Ok(Token::Text { span }) && span.start == old(stream).pos() && span.text@
                == old(stream).text().subrange(old(stream).pos(), final(stream).pos()),
            old(stream).pos() < final(stream).pos() <= final(stream).text().len(),
    {
        let span = stream.consume_bytes(|c: u8| -> (k: bool) ensures k == (c != 60) { c != 60u8 });
        proof {
            crate::stream::lemma_run_end(
                stream.text(),
                old(stream).pos(),
                stream.pos(),
                |b: u8| b != 60,
            );
        }
        Ok(Token::Text { span })
    }

    /// `</name>`
    fn parse_close_element(stream: &mut SvgStream<'a>) -> (r: StreamResult<Token<'a>>)
        requires
            old(stream).pos() + 2 <= old(stream).text().len(),
        ensures
            r is Ok ==> close_at(old(stream).text(), old(stream).pos(), final(stream).pos(), r->Ok_0),
            r is Ok ==> !(r->Ok_0 is Text),
            final(stream).text() == old(stream).text(),
            old(stream).pos() < final(stream).pos() <= final(stream).text().len(),
    {
        let start = stream.byte_pos();
        stream.advance(2);
        let qname = stream.consume_qname()?;
        stream.skip_spaces();
        stream.consume_byte(62u8)?;
        let span = stream.slice_to_current(start);
        Ok(Token::ElementControl { control: ElementControl::Close(qname), span })
    }

    /// `<?target content?>`
    fn parse_processor(stream: &mut SvgStream<'a>) -> (r: StreamResult<Token<'a>>)
        requires
            old(stream).pos() + 2 <= old(stream).text().len(),
        ensures
            r is Ok ==> !(r->Ok_0 is Text),
            final(stream).text() == old(stream).text(),
            old(stream).pos() < final(stream).pos() <= final(stream).text().len(),
    {
        let start = stream.byte_pos();
        stream.advance(2);
        let target = stream.consume_xml_name()?;
        stream.skip_spaces();
        let content_start = stream.byte_pos();
        // the content runs up to the first `?>`
        let n = stream.source_len();
        while !stream.at_end() && !(stream.match_current(63u8) && stream.peek() matches Ok(62u8))
            invariant
                stream.text() == old(stream).text(),
                old(stream).pos() < content_start <= stream.pos() <= stream.text().len(),
                n == stream.text().len(),
            decreases stream.text().len() - stream.pos(),
        {
            stream.advance(1);
        }
        let content = stream.slice_to_current(content_start);
        let content = if content.text.len() > 0 {
            Some(content)
        } else {
            None
        };
        let close: [u8; 2] = [63u8, 62u8];
        stream.consume_string(close.as_slice())?;
        let span = stream.slice_to_current(start);
        let processing_instruction = ProcessingInstruction { target, content };
        Ok(Token::ProcessingInstruction { processing_instruction, span })
    }
}

} // verus!
