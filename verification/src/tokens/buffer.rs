//! The buffer that looks one token ahead.

use super::error::{TokenError, TokenErrorView};
use super::rules::{next_token, read_view, token_read, window_read};
use crate::ast::{Token, TokenView};
use crate::text::document::{covered, lemma_boundary_between, lemma_boundary_ends, lies_on};
use crate::text::{Span, Spanned, Window, WindowView};
use vstd::prelude::*;

verus! {

/// What a token buffer is: the window it reads from, the span and the
/// tokens it has gathered since they were last handed out, and what it has
/// read ahead, if anything.
pub struct TokenBufferView {
    pub window: WindowView,
    pub span: Span,
    pub content: Seq<TokenView>,
    pub buffer: Option<Result<(TokenView, Span), TokenErrorView>>,
}

impl TokenBufferView {
    /// The gathered span and the span of a token read ahead lie on the
    /// text of the window.
    pub open spec fn wf(self) -> bool {
        &&& lies_on(self.span, self.window.text)
        &&& match self.buffer {
            Some(Ok((_, span))) => lies_on(span, self.window.text),
            _ => true,
        }
    }

    /// The buffer with something read ahead: as it is where it holds
    /// something already, and else with what the window gives next.
    pub open spec fn peeked(self) -> TokenBufferView {
        if self.buffer is Some {
            self
        } else {
            TokenBufferView {
                window: window_read(self.window),
                span: self.span,
                content: self.content,
                buffer: Some(token_read(self.window)),
            }
        }
    }

    /// What is next: what the buffer holds, or what the window gives.
    pub open spec fn next(self) -> Result<(TokenView, Span), TokenErrorView> {
        match self.buffer {
            Some(held) => held,
            None => token_read(self.window),
        }
    }

    /// Whether the next token, if there is one, begins where the gathered
    /// span ends.
    pub open spec fn can_take(self) -> bool {
        match self.next() {
            Ok((_, span)) => self.span.end == span.start,
            Err(_) => true,
        }
    }

    /// The buffer with what is next taken out of it: a token joins the
    /// gathered tokens and its span the gathered span, an error is dropped.
    pub open spec fn taken(self) -> TokenBufferView {
        match self.next() {
            Ok((token, span)) => TokenBufferView {
                window: self.peeked().window,
                span: Span { start: self.span.start, end: span.end },
                content: self.content.push(token),
                buffer: None,
            },
            Err(_) => TokenBufferView {
                window: self.peeked().window,
                span: self.span,
                content: self.content,
                buffer: None,
            },
        }
    }

    /// The buffer with the gathered tokens handed out: no tokens, and an
    /// empty span where the gathered span ended.
    pub open spec fn completed(self) -> TokenBufferView {
        TokenBufferView {
            window: self.window,
            span: self.span.collapsed(),
            content: Seq::empty(),
            buffer: self.buffer,
        }
    }

    /// Looking ahead twice is looking ahead once: the second look finds
    /// what the first found and leaves the buffer, and so the window, as
    /// the first left it.
    pub proof fn lemma_peek_twice(self)
        ensures
            self.peeked().peeked() == self.peeked(),
            self.peeked().next() == self.next(),
            self.peeked().peeked().window == self.peeked().window,
    {
    }

    /// The gathered span is a summary without gaps: taking a token that
    /// was read ahead lengthens the text that the gathered span covers by
    /// the text that the span of the token covers.
    pub proof fn lemma_take_gathers(self)
        requires
            self.wf(),
            self.buffer is Some,
            self.next() is Ok,
            self.can_take(),
        ensures
            self.taken().wf(),
            covered(self.taken().span, self.window.text) == covered(self.span, self.window.text)
                + covered(self.next()->Ok_0.1, self.window.text),
    {
        let text = self.window.text;
        let token = self.next()->Ok_0.1;
        lemma_boundary_between(text, self.span.start.offset as int, self.span.end.offset as int);
        lemma_boundary_between(text, token.start.offset as int, token.end.offset as int);
        assert(covered(self.taken().span, text) =~= covered(self.span, text) + covered(
            token,
            text,
        ));
    }

    /// Taking a token that was looked at takes that token: looking ahead
    /// changes neither what is taken nor what is left.
    pub proof fn lemma_peek_then_take(self)
        ensures
            self.peeked().taken() == self.taken(),
            self.peeked().can_take() == self.can_take(),
    {
    }
}

/// A token source with one token of lookahead. It gathers the tokens that
/// are taken from it, and the span they cover, until they are handed out.
pub struct TokenBuffer<'a> {
    window: Window<'a>,
    span: Span,
    content: Vec<Token>,
    buffer: Option<Result<Spanned<Token>, TokenError>>,
}

impl<'a> View for TokenBuffer<'a> {
    type V = TokenBufferView;

    closed spec fn view(&self) -> TokenBufferView {
        TokenBufferView {
            window: self.window@,
            span: self.span,
            content: self.content.deep_view(),
            buffer: match self.buffer {
                Some(held) => Some(read_view(held)),
                None => None,
            },
        }
    }
}

impl<'a> TokenBuffer<'a> {
    /// An empty buffer over `window`, with an empty span at the origin.
    pub fn new(window: Window<'a>) -> (buffer: TokenBuffer<'a>)
        ensures
            buffer@ == (TokenBufferView {
                window: window@,
                span: Span::zero(),
                content: Seq::empty(),
                buffer: None,
            }),
            buffer@.wf(),
    {
        proof {
            lemma_boundary_ends(window@.text);
        }
        let buffer = TokenBuffer { window, span: Span::zero(), content: Vec::new(), buffer: None };
        assert(buffer.content.deep_view() =~= Seq::<TokenView>::empty());
        buffer
    }

    /// The span gathered so far.
    pub fn span(&self) -> (span: Span)
        ensures
            span == self@.span,
    {
        self.span
    }

    /// Hands out the gathered tokens with the span they cover, and starts
    /// gathering anew where that span ended.
    pub fn complete(&mut self) -> (gathered: Spanned<Vec<Token>>)
        requires
            old(self)@.wf(),
        ensures
            gathered.value.deep_view() == old(self)@.content,
            gathered.span == old(self)@.span,
            final(self)@ == old(self)@.completed(),
            final(self)@.wf(),
    {
        let span = self.span;
        let mut content = Vec::new();
        std::mem::swap(&mut self.content, &mut content);
        self.span = Span::new(span.end, span.end);
        assert(self.content.deep_view() =~= Seq::<TokenView>::empty());
        Spanned::new(content, span)
    }

    /// Reads a token ahead unless one is held already.
    fn fill(&mut self)
        requires
            old(self)@.wf(),
        ensures
            final(self)@ == old(self)@.peeked(),
            final(self).buffer is Some,
            final(self)@.wf(),
    {
        if self.buffer.is_none() {
            let read = next_token(&mut self.window);
            self.buffer = Some(read);
        }
    }

    /// Looks at the next token without taking it.
    ///
    /// The first look reads the token from the window and keeps what came
    /// of it, token or error. Every further look returns the same, and
    /// reads nothing, until the token is taken.
    pub fn peek(&mut self) -> (next: Result<&Spanned<Token>, TokenError>)
        requires
            old(self)@.wf(),
        ensures
            final(self)@ == old(self)@.peeked(),
            final(self)@.wf(),
            match next {
                Ok(spanned) => old(self)@.next() == Ok::<(TokenView, Span), TokenErrorView>(
                    (spanned.value@, spanned.span),
                ),
                Err(e) => old(self)@.next() == Err::<(TokenView, Span), TokenErrorView>(e@),
            },
    {
        self.fill();
        match &self.buffer {
            Some(Ok(spanned)) => Ok(spanned),
            Some(Err(e)) => Err(e.clone()),
            None => Err(TokenError::EndOfFile),
        }
    }

    /// Takes the next token: it joins the gathered tokens, and its span
    /// the gathered span, which it must continue without a gap.
    ///
    /// Where the next token is an error, the error is returned and
    /// dropped from the buffer, and nothing is gathered.
    pub fn take(&mut self) -> (taken: Result<(), TokenError>)
        requires
            old(self)@.wf(),
            old(self)@.can_take(),
        ensures
            final(self)@ == old(self)@.taken(),
            final(self)@.wf(),
            match taken {
                Ok(_) => old(self)@.next() is Ok,
                Err(e) => old(self)@.next() == Err::<(TokenView, Span), TokenErrorView>(e@),
            },
    {
        self.fill();
        match self.buffer.take() {
            Some(Ok(spanned)) => {
                self.span = self.span.append(spanned.span).expect(
                    "Window returned non-contiguous span!",
                );
                self.content.push(spanned.value);
                assert(self.content.deep_view() =~= old(self).content.deep_view().push(
                    spanned.value@,
                ));
                Ok(())
            },
            Some(Err(e)) => Err(e),
            None => Err(TokenError::NoCurrentToken),
        }
    }

    /// Takes the next token where it begins at the end of the gathered
    /// span, and says whether it did. A token that begins elsewhere stays
    /// in the buffer; an error is returned and dropped as by
    /// [`TokenBuffer::take`].
    pub fn try_take(&mut self) -> (taken: Result<bool, TokenError>)
        requires
            old(self)@.wf(),
        ensures
            final(self)@.wf(),
            final(self)@ == if old(self)@.can_take() {
                old(self)@.taken()
            } else {
                old(self)@.peeked()
            },
            match taken {
                Ok(took) => old(self)@.next() is Ok && took == old(self)@.can_take(),
                Err(e) => old(self)@.next() == Err::<(TokenView, Span), TokenErrorView>(e@),
            },
    {
        self.fill();
        let contiguous = match &self.buffer {
            Some(Ok(spanned)) => self.span.end == spanned.span.start,
            _ => true,
        };
        if contiguous {
            match self.take() {
                Ok(_) => Ok(true),
                Err(e) => Err(e),
            }
        } else {
            Ok(false)
        }
    }
}

} // verus!
