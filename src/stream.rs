//! A cursor over the bytes of a source text, with the reading steps of the document syntax.
use vstd::prelude::*;
use vstd::string::StringSliceAdditionalSpecFns;
use crate::checks::{
    ByteExt, is_name_code, is_name_start_code, xml_name_start, xml_name_char, space_byte, digit_byte,
    sign_byte, ident_byte,
};
use crate::error::{StreamError, StreamResult};
use crate::span::{ErrorPos, QName, Span, error_pos, same_bytes};

verus! {

/// `t` holds the bytes `lit` at offset `p`.
pub open spec fn starts_at(t: Seq<u8>, p: int, lit: Seq<u8>) -> bool {
    0 <= p && p + lit.len() <= t.len() && t.subrange(p, p + lit.len()) == lit
}

pub open spec fn comment_open() -> Seq<u8> {
    seq![60u8, 33u8, 45u8, 45u8]
}

pub open spec fn comment_close() -> Seq<u8> {
    seq![45u8, 45u8, 62u8]
}

/// Where skipping white space and comments that starts at `p` stops; `in_comment` tells
/// whether `p` lies inside a comment.
pub open spec fn skip_spaces_from(t: Seq<u8>, p: int, in_comment: bool) -> int
    decreases t.len() - p,
{
    if 0 <= p < t.len() && (space_byte(t[p]) || in_comment) {
        let q = p + 1;
        if !in_comment && starts_at(t, q, comment_open()) {
            skip_spaces_from(t, q, true)
        } else if in_comment && starts_at(t, q, comment_close()) {
            skip_spaces_from(t, q + 3, false)
        } else {
            skip_spaces_from(t, q, in_comment)
        }
    } else {
        p
    }
}

/// Where skipping white space and comments from `p` stops.
pub open spec fn skip_spaces_end(t: Seq<u8>, p: int) -> int {
    skip_spaces_from(t, p, starts_at(t, p, comment_open()))
}

pub open spec fn continuation(b: u8) -> bool {
    128 <= b < 192
}

/// The character encoded in UTF-8 at offset `p` of `t`, with the number of its bytes.
pub open spec fn char_at(t: Seq<u8>, p: int) -> Option<(u32, int)> {
    if p < 0 || p >= t.len() {
        None
    } else if t[p] < 128 {
        Some((t[p] as u32, 1))
    } else if 192 <= t[p] < 224 && p + 1 < t.len() && continuation(t[p + 1]) {
        Some((((t[p] - 192) * 64 + (t[p + 1] - 128)) as u32, 2))
    } else if 224 <= t[p] < 240 && p + 2 < t.len() && continuation(t[p + 1]) && continuation(
        t[p + 2],
    ) {
        Some((((t[p] - 224) * 4096 + (t[p + 1] - 128) * 64 + (t[p + 2] - 128)) as u32, 3))
    } else if 240 <= t[p] < 248 && p + 3 < t.len() && continuation(t[p + 1]) && continuation(
        t[p + 2],
    ) && continuation(t[p + 3]) {
        Some(
            (((t[p] - 240) * 262144 + (t[p + 1] - 128) * 4096 + (t[p + 2] - 128) * 64 + (t[p + 3]
                - 128)) as u32, 4),
        )
    } else {
        None
    }
}

/// The code point of the character at `p` (0 where there is none).
pub open spec fn code_at(t: Seq<u8>, p: int) -> u32 {
    match char_at(t, p) {
        Some((c, _w)) => c,
        None => 0,
    }
}

/// The number of bytes of the character at `p` (0 where there is none).
pub open spec fn width_at(t: Seq<u8>, p: int) -> int {
    match char_at(t, p) {
        Some((_c, w)) => w,
        None => 0,
    }
}

/// Where a run of XML name characters that starts at `p` ends; with `stop_at_colon` a colon
/// ends it too.
pub open spec fn name_end(t: Seq<u8>, p: int, stop_at_colon: bool) -> int
    decreases t.len() - p,
{
    match char_at(t, p) {
        Some((c, w)) => if xml_name_char(c) && !(stop_at_colon && c == 58) && 0 <= p {
            name_end(t, p + w, stop_at_colon)
        } else {
            p
        },
        None => p,
    }
}

/// Where a run of bytes of class `keep` that starts at `p` ends.
pub open spec fn run_end(t: Seq<u8>, p: int, keep: spec_fn(u8) -> bool) -> int
    decreases t.len() - p,
{
    if 0 <= p < t.len() && keep(t[p]) {
        run_end(t, p + 1, keep)
    } else {
        p
    }
}

/// Skipping white space never moves backwards.
pub proof fn lemma_skip_spaces_ge(t: Seq<u8>, p: int, in_comment: bool)
    ensures
        skip_spaces_from(t, p, in_comment) >= p,
    decreases t.len() - p,
{
    if 0 <= p < t.len() && (space_byte(t[p]) || in_comment) {
        let q = p + 1;
        if !in_comment && starts_at(t, q, comment_open()) {
            lemma_skip_spaces_ge(t, q, true);
        } else if in_comment && starts_at(t, q, comment_close()) {
            lemma_skip_spaces_ge(t, q + 3, false);
        } else {
            lemma_skip_spaces_ge(t, q, in_comment);
        }
    }
}

/// If every byte of `t` in `[p, q)` is of class `keep` and the byte at `q` (if any) is not,
/// the run that starts at `p` ends at `q`.
pub proof fn lemma_run_end(t: Seq<u8>, p: int, q: int, keep: spec_fn(u8) -> bool)
    requires
        0 <= p <= q <= t.len(),
        forall|i: int| p <= i < q ==> keep(#[trigger] t[i]),
        q < t.len() ==> !keep(t[q]),
    ensures
        run_end(t, p, keep) == q,
    decreases q - p,
{
    if p < q {
        lemma_run_end(t, p + 1, q, keep);
    }
}

/// The bytes other than `q`.
pub open spec fn other_than(q: u8) -> spec_fn(u8) -> bool {
    |b: u8| b != q
}

/// The value of a run of decimal digits.
pub open spec fn digits_value(s: Seq<u8>) -> int
    decreases s.len(),
{
    if s.len() == 0 {
        0
    } else {
        digits_value(s.drop_last()) * 10 + (s.last() - 48)
    }
}

/// End of a name at `p`: a character that may begin a name, then name characters (up to a
/// colon when `stop_at_colon`). `None` when the first character cannot begin a name.
pub open spec fn name_token(t: Seq<u8>, p: int, stop_at_colon: bool) -> Option<int> {
    match char_at(t, p) {
        Some((c, w)) => if xml_name_start(c) {
            Some(name_end(t, p + w, stop_at_colon))
        } else {
            None
        },
        None => None,
    }
}

/// The byte that a predefined entity name (`quot`, `amp`, `apos`, `lt`, `gt`) stands for.
pub open spec fn entity_byte(name: Seq<u8>) -> Option<u8> {
    if name == seq![113u8, 117u8, 111u8, 116u8] {
        Some(34u8)
    } else if name == seq![97u8, 109u8, 112u8] {
        Some(38u8)
    } else if name == seq![97u8, 112u8, 111u8, 115u8] {
        Some(39u8)
    } else if name == seq![108u8, 116u8] {
        Some(60u8)
    } else if name == seq![103u8, 116u8] {
        Some(62u8)
    } else {
        None
    }
}

/// The result of reading a decimal integer with an optional sign at `p`, where `p` is already
/// past white space: the value and the end offset, or `None` when there is no digit at all
/// (after the sign) or the value does not fit in an `i32`.
pub open spec fn integer_at(t: Seq<u8>, p: int) -> Option<(int, int)> {
    let signed = p < t.len() && sign_byte(t[p]);
    let q = if signed { p + 1 } else { p };
    if q < t.len() && digit_byte(t[q]) {
        let e = run_end(t, q, |b: u8| digit_byte(b));
        let v = if signed && t[p] == 45 { -digits_value(t.subrange(q, e)) } else { digits_value(t.subrange(q, e)) };
        if i32::MIN <= v <= i32::MAX { Some((v, e)) } else { None }
    } else {
        None
    }
}

/// At offset `p` stands a reference to a predefined entity: `&`, its name and `;`.
pub open spec fn entity_at(t: Seq<u8>, p: int) -> bool {
    &&& 0 <= p < t.len()
    &&& t[p] == 38
    &&& name_token(t, p + 1, false) is Some
    &&& name_token(t, p + 1, false)->0 < t.len()
    &&& t[name_token(t, p + 1, false)->0] == 59
    &&& entity_byte(t.subrange(p + 1, name_token(t, p + 1, false)->0)) is Some
}

/// Number of bytes of `s` that begin a character (that are no UTF-8 continuation bytes).
pub open spec fn count_starts(s: Seq<u8>) -> nat
    decreases s.len(),
{
    if s.len() == 0 {
        0
    } else {
        count_starts(s.drop_last()) + if continuation(s.last()) { 0nat } else { 1nat }
    }
}

/// Some character of `t` begins at offset `b` or later.
pub open spec fn has_start_from(t: Seq<u8>, b: int) -> bool {
    exists|i: int| b <= i < t.len() && 0 <= i && !continuation(#[trigger] t[i])
}

/// Continuation bytes add no characters.
proof fn lemma_count_starts_skip(t: Seq<u8>, b: int, i: int)
    requires
        0 <= b <= i <= t.len(),
        forall|k: int| b <= k < i ==> continuation(#[trigger] t[k]),
    ensures
        count_starts(t.subrange(0, i)) == count_starts(t.subrange(0, b)),
    decreases i - b,
{
    if i > b {
        assert(t.subrange(0, i).drop_last() == t.subrange(0, i - 1));
        lemma_count_starts_skip(t, b, i - 1);
    }
}

/// A cursor over the bytes of a source text.
#[derive(Debug)]
pub struct SvgStream<'a> {
    source: &'a [u8],
    position: usize,
}

impl<'a> SvgStream<'a> {
    #[verifier::type_invariant]
    spec fn inv(&self) -> bool {
        self.position <= self.source@.len() < usize::MAX
    }

    /// A cursor at the same place of the same text.
    pub fn duplicate(&self) -> (r: SvgStream<'a>)
        ensures
            r.text() == self.text(),
            r.pos() == self.pos(),
    {
        proof {
            use_type_invariant(self);
        }
        SvgStream { source: self.source, position: self.position }
    }

    /// The bytes of the source text.
    pub closed spec fn text(&self) -> Seq<u8> {
        self.source@
    }

    /// The offset of the cursor.
    pub closed spec fn pos(&self) -> int {
        self.position as int
    }

    /// The length of the text; the cursor lies within it.
    pub fn source_len(&self) -> (r: usize)
        ensures
            r == self.text().len(),
            0 <= self.pos() <= r < usize::MAX,
    {
        proof {
            use_type_invariant(self);
        }
        self.source.len()
    }

    /// A cursor at the start of `source`.
    pub fn new(source: &'a str) -> (r: SvgStream<'a>)
        requires
            source.spec_bytes().len() < usize::MAX,
        ensures
            r.text() == source.spec_bytes(),
            r.pos() == 0,
    {
        SvgStream { source: source.as_bytes(), position: 0 }
    }

    /// A cursor at the start of the bytes `source`.
    pub fn from_bytes(source: &'a [u8]) -> (r: SvgStream<'a>)
        requires
            source@.len() < usize::MAX,
        ensures
            r.text() == source@,
            r.pos() == 0,
    {
        SvgStream { source, position: 0 }
    }

    pub fn byte_pos(&self) -> (r: usize)
        ensures
            r == self.pos(),
    {
        self.position
    }

    /// The line and column of byte offset `byte`.
    pub fn create_err(&self, byte: usize) -> (r: ErrorPos)
        requires
            byte <= self.text().len(),
        ensures
            r == error_pos(self.text(), byte as int),
    {
        proof {
            use_type_invariant(self);
        }
        ErrorPos::new(self.source, byte)
    }

    /// Whether the cursor has reached the end of the text.
    pub fn at_end(&self) -> (r: bool)
        ensures
            r == (self.pos() >= self.text().len()),
    {
        self.position >= self.source.len()
    }

    pub fn current_byte_unchecked(&self) -> (r: u8)
        requires
            self.pos() < self.text().len(),
        ensures
            r == self.text()[self.pos()],
    {
        self.source[self.position]
    }

    /// The byte under the cursor, or an error at the end of the text.
    pub fn current_byte(&self) -> (r: StreamResult<u8>)
        ensures
            self.pos() < self.text().len() ==> r == Ok::<u8, StreamError>(self.text()[self.pos()]),
            self.pos() >= self.text().len() ==> r matches Err(StreamError::UnexpectedEndOfStream),
    {
        if self.at_end() {
            Err(StreamError::UnexpectedEndOfStream)
        } else {
            Ok(self.current_byte_unchecked())
        }
    }

    /// Whether the byte under the cursor is `a`.
    pub fn match_current(&self, a: u8) -> (r: bool)
        ensures
            r == (self.pos() < self.text().len() && self.text()[self.pos()] == a),
    {
        !self.at_end() && self.current_byte_unchecked() == a
    }

    /// The byte after the cursor.
    pub fn peek(&self) -> (r: StreamResult<u8>)
        ensures
            self.pos() + 1 < self.text().len() ==> r == Ok::<u8, StreamError>(
                self.text()[self.pos() + 1],
            ),
            self.pos() + 1 >= self.text().len() ==> r matches Err(
                StreamError::UnexpectedEndOfStream,
            ),
    {
        proof {
            use_type_invariant(self);
        }
        if self.position + 1 >= self.source.len() {
            return Err(StreamError::UnexpectedEndOfStream);
        }
        Ok(self.source[self.position + 1])
    }

    /// Moves the cursor `n` bytes on.
    pub fn advance(&mut self, n: usize)
        requires
            old(self).pos() + n <= old(self).text().len(),
        ensures
            final(self).text() == old(self).text(),
            final(self).pos() == old(self).pos() + n,
    {
        proof {
            use_type_invariant(&*self);
        }
        self.position = self.position + n;
    }

    /// Moves the cursor to the end of the text.
    pub fn jump_to_end(&mut self)
        ensures
            final(self).text() == old(self).text(),
            final(self).pos() == old(self).text().len(),
    {
        proof {
            use_type_invariant(&*self);
        }
        self.position = self.source.len();
    }

    /// Whether the text holds the bytes `source` at the cursor.
    pub fn starts_with(&self, source: &[u8]) -> (r: bool)
        ensures
            r == starts_at(self.text(), self.pos(), source@),
    {
        proof {
            use_type_invariant(self);
        }
        if source.len() > self.source.len() - self.position {
            return false;
        }
        let p = self.position;
        let mut i: usize = 0;
        while i < source.len()
            invariant
                p == self.position,
                p + source@.len() <= self.source@.len() < usize::MAX,
                i <= source@.len(),
                forall|q: int| 0 <= q < i ==> self.source@[p + q] == source@[q],
            decreases source@.len() - i,
        {
            if self.source[p + i] != source[i] {
                assert(self.text().subrange(self.pos(), self.pos() + source@.len())[i as int]
                    != source@[i as int]);
                return false;
            }
            i = i + 1;
        }
        assert(self.text().subrange(self.pos(), self.pos() + source@.len()) =~= source@);
        true
    }

    /// Skips white space and comments (`<!-- ... -->`).
    pub fn skip_spaces(&mut self)
        ensures
            old(self).pos() <= final(self).pos() <= final(self).text().len(),
            final(self).text() == old(self).text(),
            final(self).pos() == skip_spaces_end(old(self).text(), old(self).pos()),
    {
        let open: [u8; 4] = [60u8, 33u8, 45u8, 45u8];
        let close: [u8; 3] = [45u8, 45u8, 62u8];
        assert(open@ == comment_open());
        assert(close@ == comment_close());
        let mut is_comment = self.starts_with(open.as_slice());
        proof {
            use_type_invariant(&*self);
        }
        while !self.at_end() && (self.current_byte_unchecked().is_whitespace() || is_comment)
            invariant
                self.text() == old(self).text(),
                0 <= old(self).pos() <= self.pos() <= self.text().len(),
                skip_spaces_from(self.text(), self.pos(), is_comment) == skip_spaces_end(
                    old(self).text(),
                    old(self).pos(),
                ),
                open@ == comment_open(),
                close@ == comment_close(),
            decreases self.text().len() - self.pos(),
        {
            self.advance(1);
            if !is_comment && self.starts_with(open.as_slice()) {
                is_comment = true;
            } else if is_comment && self.starts_with(close.as_slice()) {
                is_comment = false;
                self.advance(3);
            }
            proof {
                use_type_invariant(&*self);
            }
        }
    }

    /// Consumes the byte `byte`.
    pub fn consume_byte(&mut self, byte: u8) -> (r: StreamResult<()>)
        ensures
            old(self).pos() <= final(self).pos() <= final(self).text().len(),
            final(self).text() == old(self).text(),
            r is Ok <==> (old(self).pos() < old(self).text().len() && old(self).text()[old(self).pos()]
                == byte),
            r is Ok ==> final(self).pos() == old(self).pos() + 1,
            r is Err ==> final(self).pos() == old(self).pos(),
            old(self).pos() >= old(self).text().len() ==> r matches Err(
                StreamError::UnexpectedEndOfStream,
            ),
            old(self).pos() < old(self).text().len() && old(self).text()[old(self).pos()] != byte
                ==> (r matches Err(StreamError::InvalidString(found, at)) && found@.len() == 2
                && found@[0]@ == seq![old(self).text()[old(self).pos()]] && found@[1]@ == seq![byte]
                && at == error_pos(old(self).text(), old(self).pos())),
    {
        proof {
            use_type_invariant(&*self);
        }
        if self.at_end() {
            Err(StreamError::UnexpectedEndOfStream)
        } else if !self.match_current(byte) {
            let actual = vec![self.current_byte_unchecked()];
            let expected = vec![byte];
            let at = self.create_err(self.byte_pos());
            Err(StreamError::InvalidString(vec![actual, expected], at))
        } else {
            self.advance(1);
            Ok(())
        }
    }

    /// Consumes the bytes `source`.
    pub fn consume_string(&mut self, source: &[u8]) -> (r: StreamResult<()>)
        ensures
            old(self).pos() <= final(self).pos() <= final(self).text().len(),
            final(self).text() == old(self).text(),
            r is Ok <==> (old(self).pos() < old(self).text().len() && starts_at(
                old(self).text(),
                old(self).pos(),
                source@,
            )),
            r is Ok ==> final(self).pos() == old(self).pos() + source@.len(),
            r is Err ==> final(self).pos() == old(self).pos(),
            old(self).pos() >= old(self).text().len() ==> r matches Err(
                StreamError::UnexpectedEndOfStream,
            ),
            old(self).pos() < old(self).text().len() && !starts_at(
                old(self).text(),
                old(self).pos(),
                source@,
            ) ==> (r matches Err(StreamError::InvalidString(found, at)) && found@.len() == 2
                && found@[0]@ == old(self).text().subrange(
                old(self).pos(),
                old(self).pos() + if source@.len() < old(self).text().len() - old(self).pos() {
                    source@.len() as int
                } else {
                    old(self).text().len() - old(self).pos()
                },
            ) && found@[1]@ == source@ && at == error_pos(old(self).text(), old(self).pos())),
    {
        proof {
            use_type_invariant(&*self);
        }
        if self.at_end() {
            return Err(StreamError::UnexpectedEndOfStream);
        }
        if !self.starts_with(source) {
            let n = self.source_len();
            let avail = n - self.byte_pos();
            let len = if source.len() < avail {
                source.len()
            } else {
                avail
            };
            let mut actual: Vec<u8> = Vec::new();
            let mut i: usize = 0;
            while i < len
                invariant
                    i <= len,
                    self.pos() + len <= self.text().len() < usize::MAX,
                    actual@ == self.text().subrange(self.pos(), self.pos() + i),
                decreases len - i,
            {
                actual.push(self.source[self.position + i]);
                assert(self.text().subrange(self.pos(), self.pos() + i + 1) == self.text().subrange(
                    self.pos(),
                    self.pos() + i,
                ).push(self.text()[self.pos() + i]));
                i = i + 1;
            }
            let mut expected: Vec<u8> = Vec::new();
            let mut j: usize = 0;
            while j < source.len()
                invariant
                    j <= source@.len(),
                    expected@ == source@.subrange(0, j as int),
                decreases source@.len() - j,
            {
                expected.push(source[j]);
                assert(source@.subrange(0, j + 1) == source@.subrange(0, j as int).push(source@[j as int]));
                j = j + 1;
            }
            assert(source@.subrange(0, source@.len() as int) == source@);
            let at = self.create_err(self.byte_pos());
            return Err(StreamError::InvalidString(vec![actual, expected], at));
        }
        self.advance(source.len());
        Ok(())
    }

    /// Moves the cursor over the bytes for which `f` holds, up to the first byte for which it
    /// does not.
    pub fn skip_bytes<F: Fn(u8) -> bool>(&mut self, f: F)
        requires
            forall|b: u8| f.requires((b,)),
        ensures
            final(self).text() == old(self).text(),
            old(self).pos() <= final(self).pos() <= final(self).text().len(),
            forall|i: int|
                old(self).pos() <= i < final(self).pos() ==> f.ensures(
                    (#[trigger] final(self).text()[i],),
                    true,
                ),
            final(self).pos() < final(self).text().len() ==> f.ensures(
                (final(self).text()[final(self).pos()],),
                false,
            ),
    {
        proof {
            use_type_invariant(&*self);
        }
        let mut go = true;
        while go && !self.at_end()
            invariant
                forall|b: u8| f.requires((b,)),
                self.text() == old(self).text(),
                old(self).pos() <= self.pos() <= self.text().len(),
                forall|i: int|
                    old(self).pos() <= i < self.pos() ==> f.ensures((#[trigger] self.text()[i],), true),
                !go ==> self.pos() < self.text().len() && f.ensures(
                    (self.text()[self.pos()],),
                    false,
                ),
            decreases self.text().len() - self.pos() + if go { 1int } else { 0int },
        {
            let c = self.current_byte_unchecked();
            if f(c) {
                self.advance(1);
            } else {
                go = false;
            }
        }
    }

    /// Consumes the bytes for which `f` holds and returns them as a span.
    pub fn consume_bytes<F: Fn(u8) -> bool>(&mut self, f: F) -> (r: Span<'a>)
        requires
            forall|b: u8| f.requires((b,)),
        ensures
            final(self).text() == old(self).text(),
            old(self).pos() <= final(self).pos() <= final(self).text().len(),
            forall|i: int|
                old(self).pos() <= i < final(self).pos() ==> f.ensures(
                    (#[trigger] final(self).text()[i],),
                    true,
                ),
            final(self).pos() < final(self).text().len() ==> f.ensures(
                (final(self).text()[final(self).pos()],),
                false,
            ),
            r.text@ == old(self).text().subrange(old(self).pos(), final(self).pos()),
            r.start == old(self).pos(),
    {
        let start = self.byte_pos();
        self.skip_bytes(f);
        self.slice_to_current(start)
    }

    /// Consumes a run of letters, digits, `-` and `_`.
    pub fn consume_ident(&mut self) -> (r: Span<'a>)
        ensures
            final(self).text() == old(self).text(),
            final(self).pos() == run_end(old(self).text(), old(self).pos(), |b: u8| ident_byte(b)),
            r.text@ == old(self).text().subrange(old(self).pos(), final(self).pos()),
            r.start == old(self).pos(),
    {
        let r = self.consume_bytes(|c: u8| -> (k: bool) ensures k == ident_byte(c) { c.is_ident() });
        proof {
            lemma_run_end(self.text(), old(self).pos(), self.pos(), |b: u8| ident_byte(b));
        }
        r
    }

    /// Skips a run of decimal digits.
    pub fn skip_digits(&mut self)
        ensures
            final(self).text() == old(self).text(),
            final(self).pos() == run_end(old(self).text(), old(self).pos(), |b: u8| digit_byte(b)),
            old(self).pos() <= final(self).pos() <= final(self).text().len(),
    {
        self.skip_bytes(|c: u8| -> (k: bool) ensures k == digit_byte(c) { c.is_digit() });
        proof {
            lemma_run_end(self.text(), old(self).pos(), self.pos(), |b: u8| digit_byte(b));
        }
    }

    /// The text between offset `position` and the cursor.
    pub fn slice_to_current(&self, position: usize) -> (r: Span<'a>)
        requires
            position <= self.pos(),
        ensures
            r.text@ == self.text().subrange(position as int, self.pos()),
            r.start == position,
    {
        proof {
            use_type_invariant(self);
        }
        Span::from_range(self.source, position, self.position)
    }

    /// The text from the cursor to the end.
    pub fn slice_tail(&self) -> (r: Span<'a>)
        ensures
            r.text@ == self.text().subrange(self.pos(), self.text().len() as int),
            r.start == self.pos(),
    {
        proof {
            use_type_invariant(self);
        }
        Span::from_range(self.source, self.position, self.source.len())
    }

    /// Skips a `,` at the cursor, if there is one.
    pub fn parse_list_separator(&mut self)
        ensures
            old(self).pos() <= final(self).pos() <= final(self).text().len(),
            final(self).text() == old(self).text(),
            final(self).pos() == if old(self).pos() < old(self).text().len() && old(self).text()[old(
                self,
            ).pos()] == 44 {
                old(self).pos() + 1
            } else {
                old(self).pos()
            },
    {
        proof {
            use_type_invariant(&*self);
        }
        if self.match_current(44u8) {
            self.advance(1);
        }
    }

    /// Skips white space, `=` and white space.
    pub fn consume_equals(&mut self) -> (r: StreamResult<()>)
        ensures
            old(self).pos() <= final(self).pos() <= final(self).text().len(),
            final(self).text() == old(self).text(),
            ({
                let t = old(self).text();
                let p = skip_spaces_end(t, old(self).pos());
                &&& r is Ok <==> (p < t.len() && t[p] == 61)
                &&& r is Ok ==> final(self).pos() == skip_spaces_end(t, p + 1)
                &&& r is Err ==> final(self).pos() == p
            }),
    {
        proof {
            use_type_invariant(&*self);
        }
        self.skip_spaces();
        self.consume_byte(61u8)?;
        self.skip_spaces();
        Ok(())
    }

    /// Consumes a quote, `"` or `'`, and returns it.
    pub fn consume_quote(&mut self) -> (r: StreamResult<u8>)
        ensures
            old(self).pos() <= final(self).pos() <= final(self).text().len(),
            final(self).text() == old(self).text(),
            ({
                let t = old(self).text();
                let p = old(self).pos();
                &&& p >= t.len() ==> (r matches Err(StreamError::UnexpectedEndOfStream)
                    && final(self).pos() == p)
                &&& p < t.len() && (t[p] == 34 || t[p] == 39) ==> r == Ok::<u8, StreamError>(t[p])
                    && final(self).pos() == p + 1
                &&& p < t.len() && !(t[p] == 34 || t[p] == 39) ==> (r matches Err(
                    StreamError::InvalidQuote(at),
                ) && at == error_pos(t, p) && final(self).pos() == p)
            }),
    {
        proof {
            use_type_invariant(&*self);
        }
        let current = self.current_byte()?;
        if current == 34u8 || current == 39u8 {
            self.advance(1);
            Ok(current)
        } else {
            Err(StreamError::InvalidQuote(self.create_err(self.byte_pos())))
        }
    }

    /// The character encoded at offset `p`, with the number of its bytes.
    fn char_at_offset(&self, p: usize) -> (r: Option<(u32, usize)>)
        ensures
            match r {
                Some((c, w)) => char_at(self.text(), p as int) == Some((c, w as int)) && 1 <= w <= 4,
                None => char_at(self.text(), p as int) is None,
            },
    {
        let n = self.source_len();
        if p >= n {
            return None;
        }
        let b0 = self.source[p];
        if b0 < 128u8 {
            return Some((b0 as u32, 1));
        }
        if 192u8 <= b0 && b0 < 224u8 && n - p > 1 {
            let b1 = self.source[p + 1];
            if 128u8 <= b1 && b1 < 192u8 {
                return Some((((b0 - 192u8) as u32) * 64 + ((b1 - 128u8) as u32), 2));
            }
            return None;
        }
        if 224u8 <= b0 && b0 < 240u8 && n - p > 2 {
            let b1 = self.source[p + 1];
            let b2 = self.source[p + 2];
            if 128u8 <= b1 && b1 < 192u8 && 128u8 <= b2 && b2 < 192u8 {
                return Some(
                    (((b0 - 224u8) as u32) * 4096 + ((b1 - 128u8) as u32) * 64 + ((b2 - 128u8) as u32), 3),
                );
            }
            return None;
        }
        if 240u8 <= b0 && b0 < 248u8 && n - p > 3 {
            let b1 = self.source[p + 1];
            let b2 = self.source[p + 2];
            let b3 = self.source[p + 3];
            if 128u8 <= b1 && b1 < 192u8 && 128u8 <= b2 && b2 < 192u8 && 128u8 <= b3 && b3 < 192u8 {
                return Some(
                    (((b0 - 240u8) as u32) * 262144 + ((b1 - 128u8) as u32) * 4096 + ((b2 - 128u8)
                        as u32) * 64 + ((b3 - 128u8) as u32), 4),
                );
            }
            return None;
        }
        None
    }

    /// Skips name characters (up to a colon when `stop_at_colon`).
    fn skip_name_chars(&mut self, stop_at_colon: bool)
        ensures
            final(self).text() == old(self).text(),
            final(self).pos() == name_end(old(self).text(), old(self).pos(), stop_at_colon),
            old(self).pos() <= final(self).pos() <= final(self).text().len(),
    {
        proof {
            use_type_invariant(&*self);
        }
        loop
            invariant
                self.text() == old(self).text(),
                0 <= old(self).pos() <= self.pos() <= self.text().len(),
                name_end(self.text(), self.pos(), stop_at_colon) == name_end(
                    old(self).text(),
                    old(self).pos(),
                    stop_at_colon,
                ),
            decreases self.text().len() - self.pos(),
        {
            let p = self.byte_pos();
            proof {
                use_type_invariant(&*self);
            }
            match self.char_at_offset(p) {
                Some((c, w)) => {
                    if is_name_code(c) && !(stop_at_colon && c == 58) {
                        self.advance(w);
                    } else {
                        return;
                    }
                },
                None => {
                    return;
                },
            }
        }
    }

    /// Skips an XML name: a character that may begin a name, then name characters.
    pub fn skip_xml_name(&mut self) -> (r: StreamResult<()>)
        ensures
            old(self).pos() <= final(self).pos() <= final(self).text().len(),
            final(self).text() == old(self).text(),
            ({
                let t = old(self).text();
                let p = old(self).pos();
                &&& name_token(t, p, false) is Some ==> r is Ok && final(self).pos()
                    == name_token(t, p, false)->0
                &&& name_token(t, p, false) is None ==> (r matches Err(
                    StreamError::InvalidXMLName(at),
                ) && at == error_pos(t, p))
                &&& char_at(t, p) is None ==> final(self).pos() == p
                &&& (char_at(t, p) is Some && !xml_name_start(code_at(t, p))) ==> final(self).pos()
                    == p + width_at(t, p)
            }),
    {
        proof {
            use_type_invariant(&*self);
        }
        let start = self.byte_pos();
        proof {
            use_type_invariant(&*self);
        }
        match self.char_at_offset(start) {
            None => Err(StreamError::InvalidXMLName(self.create_err(start))),
            Some((c, w)) => {
                self.advance(w);
                if !is_name_start_code(c) {
                    return Err(StreamError::InvalidXMLName(self.create_err(start)));
                }
                self.skip_name_chars(false);
                Ok(())
            },
        }
    }

    /// Consumes an XML name and returns it.
    pub fn consume_xml_name(&mut self) -> (r: StreamResult<Span<'a>>)
        ensures
            old(self).pos() <= final(self).pos() <= final(self).text().len(),
            final(self).text() == old(self).text(),
            ({
                let t = old(self).text();
                let p = old(self).pos();
                &&& name_token(t, p, false) is Some ==> (r matches Ok(s) && s.start == p
                    && s.text@ == t.subrange(p, name_token(t, p, false)->0) && final(self).pos()
                    == name_token(t, p, false)->0)
                &&& name_token(t, p, false) is None ==> (r matches Err(
                    StreamError::InvalidXMLName(at),
                ) && at == error_pos(t, p))
            }),
    {
        proof {
            use_type_invariant(&*self);
        }
        let start = self.byte_pos();
        proof {
            use_type_invariant(&*self);
        }
        self.skip_xml_name()?;
        proof {
            let (c, w) = char_at(self.text(), start as int)->0;
            lemma_name_end_ge(self.text(), start + w, false);
        }
        if start == self.byte_pos() {
            return Err(StreamError::InvalidXMLName(self.create_err(start)));
        }
        Ok(self.slice_to_current(start))
    }

    /// Consumes a name with an optional prefix, `prefix:local` or `local`.
    pub fn consume_qname(&mut self) -> (r: StreamResult<QName<'a>>)
        ensures
            r is Ok ==> r->Ok_0.span.start == old(self).pos(),
            r is Ok ==> r->Ok_0.span.text@ == old(self).text().subrange(old(self).pos(), final(self).pos()),
            r is Ok ==> r->Ok_0.local.text@.len() > 0,
            r is Ok && r->Ok_0.prefix.text@.len() == 0 ==> r->Ok_0.local.text@ == r->Ok_0.span.text@,
            r is Ok && r->Ok_0.prefix.text@.len() > 0 ==> r->Ok_0.span.text@ == r->Ok_0.prefix.text@
                + seq![58u8] + r->Ok_0.local.text@,
            old(self).pos() <= final(self).pos() <= final(self).text().len(),
            final(self).text() == old(self).text(),
            ({
                let t = old(self).text();
                let p = old(self).pos();
                let first = name_token(t, p, true);
                &&& first is None ==> (r matches Err(StreamError::InvalidXMLName(at)) && at
                    == error_pos(t, p))
                &&& first is Some && first->0 >= t.len() ==> (r matches Err(
                    StreamError::UnexpectedEndOfStream,
                ))
                &&& first is Some && first->0 < t.len() && t[first->0] != 58 ==> (r matches Ok(q)
                    && q.prefix.text@.len() == 0 && q.local.start == p && q.local.text@
                    == t.subrange(p, first->0) && q.span == q.local && final(self).pos() == first->0)
                &&& first is Some && first->0 < t.len() && t[first->0] == 58 && name_token(
                    t,
                    first->0 + 1,
                    true,
                ) is None ==> (r matches Err(StreamError::InvalidXMLName(at)) && at == error_pos(
                    t,
                    first->0 + 1,
                ))
                &&& first is Some && first->0 < t.len() && t[first->0] == 58 && name_token(
                    t,
                    first->0 + 1,
                    true,
                ) is Some ==> ({
                    let e = name_token(t, first->0 + 1, true)->0;
                    r matches Ok(q) && q.prefix.start == p && q.prefix.text@ == t.subrange(
                        p,
                        first->0,
                    ) && q.local.start == first->0 + 1 && q.local.text@ == t.subrange(
                        first->0 + 1,
                        e,
                    ) && q.span.start == p && q.span.text@ == t.subrange(p, e)
                        && final(self).pos() == e
                })
            }),
    {
        proof {
            use_type_invariant(&*self);
        }
        let start = self.byte_pos();
        proof {
            use_type_invariant(&*self);
        }
        match self.char_at_offset(start) {
            None => {
                return Err(StreamError::InvalidXMLName(self.create_err(start)));
            },
            Some((c, w)) => {
                self.advance(w);
                if !is_name_start_code(c) {
                    return Err(StreamError::InvalidXMLName(self.create_err(start)));
                }
            },
        }
        self.skip_name_chars(true);
        let begin = self.slice_to_current(start);
        if self.current_byte()? == 58u8 {
            self.advance(1);
            let local_start = self.byte_pos();
            proof {
                use_type_invariant(&*self);
            }
            match self.char_at_offset(local_start) {
                None => {
                    return Err(StreamError::InvalidXMLName(self.create_err(local_start)));
                },
                Some((c, w)) => {
                    self.advance(w);
                    if !is_name_start_code(c) {
                        return Err(StreamError::InvalidXMLName(self.create_err(local_start)));
                    }
                },
            }
            self.skip_name_chars(true);
            proof {
                let t = self.text();
                let (c0, w0) = char_at(t, start as int)->0;
                lemma_name_end_ge(t, start + w0, true);
                let (c1, w1) = char_at(t, local_start as int)->0;
                lemma_name_end_ge(t, local_start + w1, true);
                assert(t.subrange(start as int, self.pos()) =~= t.subrange(
                    start as int,
                    local_start - 1,
                ) + seq![58u8] + t.subrange(local_start as int, self.pos()));
            }
            Ok(
                QName {
                    prefix: begin,
                    local: self.slice_to_current(local_start),
                    span: self.slice_to_current(start),
                },
            )
        } else {
            proof {
                let t = self.text();
                let (c0, w0) = char_at(t, start as int)->0;
                lemma_name_end_ge(t, start + w0, true);
            }
            let empty = Span::from_range(begin.text, 0, 0);
            Ok(QName { prefix: empty, local: begin, span: begin })
        }
    }

    /// Reads a decimal integer with an optional sign, after white space and comments.
    pub fn parse_integer(&mut self) -> (r: StreamResult<i32>)
        ensures
            old(self).pos() <= final(self).pos() <= final(self).text().len(),
            final(self).text() == old(self).text(),
            ({
                let t = old(self).text();
                let p = skip_spaces_end(t, old(self).pos());
                &&& p >= t.len() ==> (r matches Err(StreamError::InvalidNumber(at)) && at
                    == error_pos(t, p))
                &&& p < t.len() ==> match integer_at(t, p) {
                    Some((v, e)) => r == Ok::<i32, StreamError>(v as i32) && final(self).pos() == e,
                    None => r is Err,
                }
                &&& p < t.len() && sign_byte(t[p]) && p + 1 >= t.len() ==> (r matches Err(
                    StreamError::UnexpectedEndOfStream,
                ))
                &&& p < t.len() && integer_at(t, p) is None && !(sign_byte(t[p]) && p + 1
                    >= t.len()) ==> (r matches Err(StreamError::InvalidNumber(at)) && at
                    == error_pos(t, p))
            }),
    {
        proof {
            use_type_invariant(&*self);
        }
        self.skip_spaces();
        proof {
            use_type_invariant(&*self);
        }
        if self.at_end() {
            return Err(StreamError::InvalidNumber(self.create_err(self.byte_pos())));
        }
        let start = self.byte_pos();
        let negative = self.current_byte_unchecked() == 45u8;
        if self.current_byte_unchecked().is_sign() {
            self.advance(1);
        }
        if !self.current_byte()?.is_digit() {
            return Err(StreamError::InvalidNumber(self.create_err(start)));
        }
        let digits_start = self.byte_pos();
        self.skip_digits();
        let end = self.byte_pos();
        let ghost t = self.text();
        // accumulate the magnitude; stop once it leaves the range of an i32
        let mut value: i64 = 0;
        let mut i: usize = digits_start;
        let mut fits = true;
        proof {
            lemma_run_digits(t, digits_start as int, end as int);
        }
        while i < end
            invariant
                self.text() == t,
                end == self.pos(),
                end <= t.len(),
                digits_start <= i <= end,
                end == run_end(t, digits_start as int, |b: u8| digit_byte(b)),
                forall|k: int| digits_start <= k < end ==> digit_byte(#[trigger] t[k]),
                fits ==> value == digits_value(t.subrange(digits_start as int, i as int)),
                fits ==> 0 <= value <= 2147483648,
                !fits ==> digits_value(t.subrange(digits_start as int, end as int)) > 2147483648,
            decreases end - i,
        {
            if fits {
                let d = (self.source[i] - 48u8) as i64;
                assert(t.subrange(digits_start as int, i + 1).drop_last() == t.subrange(
                    digits_start as int,
                    i as int,
                ));
                let next = value * 10 + d;
                if next > 2147483648 {
                    fits = false;
                    proof {
                        lemma_digits_grow(t, digits_start as int, i + 1, end as int);
                    }
                } else {
                    value = next;
                }
            }
            i = i + 1;
        }
        if !fits {
            return Err(StreamError::InvalidNumber(self.create_err(start)));
        }
        let value_i64: i64 = if negative { -value } else { value };
        if value_i64 > 2147483647 || value_i64 < -2147483648 {
            return Err(StreamError::InvalidNumber(self.create_err(start)));
        }
        Ok(value_i64 as i32)
    }

    /// Reads an integer of a list, then white space and one optional `,`.
    pub fn parse_list_integer(&mut self) -> (r: StreamResult<i32>)
        ensures
            old(self).pos() <= final(self).pos() <= final(self).text().len(),
            final(self).text() == old(self).text(),
            old(self).pos() >= old(self).text().len() ==> r matches Err(
                StreamError::UnexpectedEndOfStream,
            ),
            ({
                let t = old(self).text();
                let p = skip_spaces_end(t, old(self).pos());
                old(self).pos() < t.len() && p < t.len() ==> match integer_at(t, p) {
                    Some((v, e)) => r == Ok::<i32, StreamError>(v as i32) && final(self).pos() == ({
                        let q = skip_spaces_end(t, e);
                        if q < t.len() && t[q] == 44 {
                            q + 1
                        } else {
                            q
                        }
                    }),
                    None => r is Err,
                }
            }),
    {
        proof {
            use_type_invariant(&*self);
        }
        if self.at_end() {
            return Err(StreamError::UnexpectedEndOfStream);
        }
        let n = self.parse_integer()?;
        self.skip_spaces();
        self.parse_list_separator();
        Ok(n)
    }

    /// The entity byte for a name, if the name is one of the predefined entities.
    fn entity_of(name: &[u8]) -> (r: Option<u8>)
        ensures
            r == entity_byte(name@),
    {
        let quot: [u8; 4] = [113u8, 117u8, 111u8, 116u8];
        let amp: [u8; 3] = [97u8, 109u8, 112u8];
        let apos: [u8; 4] = [97u8, 112u8, 111u8, 115u8];
        let lt: [u8; 2] = [108u8, 116u8];
        let gt: [u8; 2] = [103u8, 116u8];
        assert(quot@ == seq![113u8, 117u8, 111u8, 116u8]);
        assert(amp@ == seq![97u8, 109u8, 112u8]);
        assert(apos@ == seq![97u8, 112u8, 111u8, 115u8]);
        assert(lt@ == seq![108u8, 116u8]);
        assert(gt@ == seq![103u8, 116u8]);
        if same_bytes(name, quot.as_slice()) {
            Some(34u8)
        } else if same_bytes(name, amp.as_slice()) {
            Some(38u8)
        } else if same_bytes(name, apos.as_slice()) {
            Some(39u8)
        } else if same_bytes(name, lt.as_slice()) {
            Some(60u8)
        } else if same_bytes(name, gt.as_slice()) {
            Some(62u8)
        } else {
            None
        }
    }

    /// Reads a piece of character data: a predefined entity reference (`&lt;` and the like)
    /// gives its byte; otherwise the bytes up to the next `&` are returned.
    pub fn consume_str_chunk(&mut self) -> (r: Vec<u8>)
        ensures
            final(self).text() == old(self).text(),
            old(self).pos() < old(self).text().len() ==> old(self).pos() < final(self).pos(),
            old(self).pos() <= final(self).pos() <= old(self).text().len(),
            (old(self).pos() >= old(self).text().len() || old(self).text()[old(self).pos()] != 38)
                ==> final(self).pos() == run_end(old(self).text(), old(self).pos(), |b: u8| b != 38)
                && r@ == old(self).text().subrange(old(self).pos(), final(self).pos()),
            entity_at(old(self).text(), old(self).pos()) ==> r@ == seq![
                entity_byte(
                    old(self).text().subrange(
                        old(self).pos() + 1,
                        name_token(old(self).text(), old(self).pos() + 1, false)->0,
                    ),
                )->0,
            ],
            entity_at(old(self).text(), old(self).pos()) ==> final(self).pos() == name_token(
                old(self).text(),
                old(self).pos() + 1,
                false,
            )->0 + 1,
            !entity_at(old(self).text(), old(self).pos()) ==> old(self).pos() <= final(self).pos()
                - r@.len(),
            !entity_at(old(self).text(), old(self).pos()) ==> r@ == old(self).text().subrange(
                final(self).pos() - r@.len(),
                final(self).pos(),
            ),
            !entity_at(old(self).text(), old(self).pos()) ==> final(self).pos() == run_end(
                old(self).text(),
                final(self).pos() - r@.len(),
                |b: u8| b != 38,
            ),
    {
        proof {
            use_type_invariant(&*self);
        }
        if self.match_current(38u8) {
            self.advance(1);
            match self.consume_xml_name() {
                Ok(name) => {
                    if self.consume_byte(59u8).is_ok() {
                        match Self::entity_of(name.text) {
                            Some(b) => {
                                proof {
                                    use_type_invariant(&*self);
                                }
                                proof {
                                    let t = old(self).text();
                                    let (c, w) = char_at(t, old(self).pos() + 1)->0;
                                    lemma_name_end_ge(t, old(self).pos() + 1 + w, false);
                                }
                                return vec![b];
                            },
                            None => {},
                        }
                    }
                },
                Err(_) => {},
            }
        }
        let start = self.byte_pos();
        let span = self.consume_bytes(|c: u8| -> (k: bool) ensures k == (c != 38) { c != 38u8 });
        proof {
            lemma_run_end(self.text(), start as int, self.pos(), |b: u8| b != 38);
        }
        vstd::slice::slice_to_vec(span.text)
    }

    /// One more than the number of characters before the first character that begins at
    /// offset `byte` or later; one more than the length of the text if there is none.
    pub fn calculate_characters_to_byte(&self, byte: usize) -> (r: usize)
        ensures
            r == if has_start_from(self.text(), byte as int) {
                count_starts(self.text().subrange(0, byte as int)) + 1
            } else {
                self.text().len() + 1
            },
    {
        let n = self.source_len();
        let mut count: usize = 0;
        let mut i: usize = 0;
        while i < n
            invariant
                n == self.text().len() < usize::MAX,
                i <= n,
                count == count_starts(self.text().subrange(0, i as int)),
                count <= i,
                forall|k: int| byte <= k < i ==> continuation(#[trigger] self.text()[k]),
            decreases n - i,
        {
            assert(self.text().subrange(0, i + 1).drop_last() == self.text().subrange(0, i as int));
            let b = self.source[i];
            let start = !(128u8 <= b && b < 192u8);
            if start && i >= byte {
                proof {
                    lemma_count_starts_skip(self.text(), byte as int, i as int);
                }
                return count + 1;
            }
            if start {
                count = count + 1;
            }
            i = i + 1;
        }
        proof {
            if has_start_from(self.text(), byte as int) {
                let k = choose|k: int| byte <= k < self.text().len() && 0 <= k && !continuation(
                    #[trigger] self.text()[k],
                );
            }
        }
        n + 1
    }

    /// `calculate_characters_to_byte` at the cursor.
    pub fn calculate_characters(&self) -> (r: usize)
        ensures
            r == if has_start_from(self.text(), self.pos()) {
                count_starts(self.text().subrange(0, self.pos())) + 1
            } else {
                self.text().len() + 1
            },
    {
        self.calculate_characters_to_byte(self.position)
    }
}


/// A run of name characters does not end before it starts.
proof fn lemma_name_end_ge(t: Seq<u8>, p: int, stop_at_colon: bool)
    requires
        0 <= p,
    ensures
        name_end(t, p, stop_at_colon) >= p,
    decreases t.len() - p,
{
    match char_at(t, p) {
        Some((c, w)) => {
            if xml_name_char(c) && !(stop_at_colon && c == 58) {
                lemma_name_end_ge(t, p + w, stop_at_colon);
            }
        },
        None => {},
    }
}

/// Digits in a run stay digits.
proof fn lemma_run_digits(t: Seq<u8>, p: int, e: int)
    requires
        0 <= p <= e <= t.len(),
        e == run_end(t, p, |b: u8| digit_byte(b)),
    ensures
        forall|k: int| p <= k < e ==> digit_byte(#[trigger] t[k]),
    decreases e - p,
{
    if p < e {
        assert(digit_byte(t[p]));
        lemma_run_digits(t, p + 1, e);
    }
}

/// Appending digits never makes a decimal value smaller.
proof fn lemma_digits_grow(t: Seq<u8>, p: int, i: int, e: int)
    requires
        0 <= p <= i <= e <= t.len(),
        forall|k: int| p <= k < e ==> digit_byte(#[trigger] t[k]),
    ensures
        digits_value(t.subrange(p, e)) >= digits_value(t.subrange(p, i)),
    decreases e - i,
{
    if i < e {
        lemma_digits_grow(t, p, i + 1, e);
        assert(t.subrange(p, i + 1).drop_last() == t.subrange(p, i));
        lemma_digits_nonneg(t, p, i);
    }
}

proof fn lemma_digits_nonneg(t: Seq<u8>, p: int, i: int)
    requires
        0 <= p <= i <= t.len(),
        forall|k: int| p <= k < i ==> digit_byte(#[trigger] t[k]),
    ensures
        digits_value(t.subrange(p, i)) >= 0,
    decreases i - p,
{
    if i > p {
        assert(t.subrange(p, i).drop_last() == t.subrange(p, i - 1));
        lemma_digits_nonneg(t, p, i - 1);
    }
}

} // verus!
