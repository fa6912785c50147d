//! Splits a style sheet into tokens (punctuation, line breaks and quoted strings).
use vstd::prelude::*;
use crate::error::{StreamError, StreamResult, SvgError, SvgErrorType, SvgResult};
use crate::span::Span;
use crate::stream::{SvgStream, run_end, other_than};

verus! {

#[derive(Debug)]
pub enum TokenType<'a> {
    Ident,
    Function { name: Span<'a> },
    At { ident: Span<'a> },
    Hash { value: Span<'a> },
    /// A quoted string; `value` is what stands between the quotes.
    String { value: Span<'a> },
    Whitespace,
    Colon,
    Semicolon,
    Comma,
    OpenSquare,
    CloseSquare,
    OpenParen,
    CloseParen,
    OpenBrace,
    CloseBrace,
    Newline,
}

/// The token that the single byte `b` stands for, if it stands for one.
pub open spec fn punctuation(b: u8, tt: TokenType) -> bool {
    if b == 40 {
        tt is OpenParen
    } else if b == 41 {
        tt is CloseParen
    } else if b == 91 {
        tt is OpenSquare
    } else if b == 93 {
        tt is CloseSquare
    } else if b == 123 {
        tt is OpenBrace
    } else if b == 125 {
        tt is CloseBrace
    } else if b == 58 {
        tt is Colon
    } else if b == 59 {
        tt is Semicolon
    } else if b == 44 {
        tt is Comma
    } else if b == 10 {
        tt is Newline
    } else {
        false
    }
}

pub open spec fn is_punctuation(b: u8) -> bool {
    b == 40 || b == 41 || b == 91 || b == 93 || b == 123 || b == 125 || b == 58 || b == 59 || b
        == 44 || b == 10
}

#[derive(Debug)]
pub struct CssToken<'a> {
    pub token_type: TokenType<'a>,
    pub span: Span<'a>,
}

/// Reads style sheet tokens one after the other from a stream.
#[derive(Debug)]
pub struct CssTokeniser<'a> {
    stream: SvgStream<'a>,
}

impl<'a> CssTokeniser<'a> {
    /// The text being read.
    pub closed spec fn text(&self) -> Seq<u8> {
        self.stream.text()
    }

    /// The offset of the next token.
    pub closed spec fn pos(&self) -> int {
        self.stream.pos()
    }

    /// A tokeniser at the cursor of `stream`.
    pub fn new(stream: SvgStream<'a>) -> (r: CssTokeniser<'a>)
        ensures
            r.text() == stream.text(),
            r.pos() == stream.pos(),
    {
        CssTokeniser { stream }
    }

    /// Reads the next token, or returns `None` at the end of the text.
    pub fn parse_next(&mut self) -> (r: Option<SvgResult<CssToken<'a>>>)
        ensures
            final(self).text() == old(self).text(),
            ({
                let t = old(self).text();
                let p = old(self).pos();
                let q = final(self).pos();
                &&& p >= t.len() <==> r is None
                &&& p < t.len() && is_punctuation(t[p]) ==> (r matches Some(Ok(tok)) && punctuation(
                    t[p],
                    tok.token_type,
                ) && tok.span.start == p && tok.span.text@ == t.subrange(p, p + 1) && q == p + 1)
                &&& p < t.len() && t[p] == 13 ==> (r matches Some(Ok(tok))
                    && tok.token_type is Newline && tok.span.start == p && q == if p + 1 < t.len()
                    && t[p + 1] == 10 {
                    p + 2
                } else {
                    p + 1
                } && tok.span.text@ == t.subrange(p, q))
                &&& p < t.len() && (t[p] == 34 || t[p] == 39) && run_end(t, p + 1, other_than(t[p]))
                    < t.len() ==> ({
                    let e = run_end(t, p + 1, other_than(t[p]));
                    r matches Some(Ok(tok)) && tok.token_type matches TokenType::String { value }
                        && value.start == p + 1 && value.text@ == t.subrange(p + 1, e)
                        && tok.span.start == p && tok.span.text@ == t.subrange(p, e + 1) && q == e
                        + 1
                })
                &&& p < t.len() && (t[p] == 34 || t[p] == 39) && run_end(t, p + 1, other_than(t[p]))
                    >= t.len() ==> (r matches Some(Err(e)) && e.0 == SvgErrorType::CssInvalidString)
                &&& p < t.len() && !is_punctuation(t[p]) && t[p] != 13 && t[p] != 34 && t[p] != 39
                    ==> (r matches Some(Err(e)) && e.0 == SvgErrorType::UnknownToken && q == p)
            }),
    {
        // the cursor lies within the text
        let _ = self.stream.source_len();
        if self.stream.at_end() {
            return None;
        }
        let start = self.stream.byte_pos();
        let b = self.stream.current_byte_unchecked();
        if b == 40u8 {
            Some(Self::parse_char_token(&mut self.stream, TokenType::OpenParen))
        } else if b == 41u8 {
            Some(Self::parse_char_token(&mut self.stream, TokenType::CloseParen))
        } else if b == 91u8 {
            Some(Self::parse_char_token(&mut self.stream, TokenType::OpenSquare))
        } else if b == 93u8 {
            Some(Self::parse_char_token(&mut self.stream, TokenType::CloseSquare))
        } else if b == 123u8 {
            Some(Self::parse_char_token(&mut self.stream, TokenType::OpenBrace))
        } else if b == 125u8 {
            Some(Self::parse_char_token(&mut self.stream, TokenType::CloseBrace))
        } else if b == 58u8 {
            Some(Self::parse_char_token(&mut self.stream, TokenType::Colon))
        } else if b == 59u8 {
            Some(Self::parse_char_token(&mut self.stream, TokenType::Semicolon))
        } else if b == 44u8 {
            Some(Self::parse_char_token(&mut self.stream, TokenType::Comma))
        } else if b == 10u8 {
            Some(Self::parse_char_token(&mut self.stream, TokenType::Newline))
        } else if b == 13u8 {
            Some(Self::parse_return(&mut self.stream))
        } else if b == 39u8 || b == 34u8 {
            match Self::parse_string(&mut self.stream) {
                Ok(tok) => Some(Ok(tok)),
                Err(e) => {
                    let at = self.stream.create_err(start);
                    Some(Err(SvgError(SvgErrorType::CssInvalidString, e, at)))
                },
            }
        } else {
            Some(
                Err(
                    SvgError(
                        SvgErrorType::UnknownToken,
                        StreamError::InvalidValue,
                        self.stream.create_err(start),
                    ),
                ),
            )
        }
    }

    /// A quoted string.
    fn parse_string(stream: &mut SvgStream<'a>) -> (r: StreamResult<CssToken<'a>>)
        requires
            old(stream).pos() < old(stream).text().len(),
            old(stream).text()[old(stream).pos()] == 34 || old(stream).text()[old(stream).pos()]
                == 39,
        ensures
            final(stream).text() == old(stream).text(),
            ({
                let t = old(stream).text();
                let p = old(stream).pos();
                let e = run_end(t, p + 1, other_than(t[p]));
                &&& e < t.len() ==> (r matches Ok(tok) && tok.token_type matches TokenType::String {
                    value,
                } && value.start == p + 1 && value.text@ == t.subrange(p + 1, e) && tok.span.start
                    == p && tok.span.text@ == t.subrange(p, e + 1) && final(stream).pos() == e + 1)
                &&& e >= t.len() ==> r is Err
            }),
    {
        let start = stream.byte_pos();
        let quote = stream.consume_quote()?;
        let value = stream.consume_bytes(|c: u8| -> (k: bool) ensures k == (c != quote) { c != quote });
        proof {
            crate::stream::lemma_run_end(
                stream.text(),
                start + 1,
                stream.pos(),
                other_than(quote),
            );
        }
        stream.consume_byte(quote)?;
        let span = stream.slice_to_current(start);
        Ok(CssToken { token_type: TokenType::String { value }, span })
    }

    /// A token of one byte.
    fn parse_char_token(stream: &mut SvgStream<'a>, token_type: TokenType<'a>) -> (r: SvgResult<
        CssToken<'a>,
    >)
        requires
            old(stream).pos() < old(stream).text().len(),
        ensures
            final(stream).text() == old(stream).text(),
            final(stream).pos() == old(stream).pos() + 1,
            r matches Ok(tok) && tok.token_type == token_type && tok.span.start == old(stream).pos()
                && tok.span.text@ == old(stream).text().subrange(
                old(stream).pos(),
                old(stream).pos() + 1,
            ),
    {
        let start = stream.byte_pos();
        stream.advance(1);
        let span = stream.slice_to_current(start);
        Ok(CssToken { token_type, span })
    }

    /// A line break: a carriage return, with the line feed that may follow it.
    fn parse_return(stream: &mut SvgStream<'a>) -> (r: SvgResult<CssToken<'a>>)
        requires
            old(stream).pos() < old(stream).text().len(),
        ensures
            final(stream).text() == old(stream).text(),
            ({
                let t = old(stream).text();
                let p = old(stream).pos();
                let q = final(stream).pos();
                &&& q == if p + 1 < t.len() && t[p + 1] == 10 {
                    p + 2
                } else {
                    p + 1
                }
                &&& r matches Ok(tok) && tok.token_type is Newline && tok.span.start == p
                    && tok.span.text@ == t.subrange(p, q)
            }),
    {
        let start = stream.byte_pos();
        stream.advance(1);
        if stream.match_current(10u8) {
            stream.advance(1);
        }
        let span = stream.slice_to_current(start);
        Ok(CssToken { token_type: TokenType::Newline, span })
    }
}

} // verus!
