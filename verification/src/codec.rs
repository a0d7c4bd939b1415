//! The WebSocket codec of the `ramjet_ws` crate, as the rest of this crate
//! relies on it.
//!
//! Nothing in this file is proved: each item says, of one function or type of
//! `ramjet_ws` or of the standard library, what its source or documentation
//! says.

use crate::wire::{
    be16, client_header_len, client_payload_len, first_byte, header_len, server_frame, unmasked,
    unmasked_to, BINARY, CLOSE, PONG, TEXT,
};
use ramjet_ws::handshake::Upgrade;
use ramjet_ws::{encode, handshake, CloseFrame, Decoder, EchoFrame, Error, Event, MessageKind};
use ramjet_ws::WholeFrame;
use std::str::Utf8Error;
use vstd::prelude::*;
use vstd::utf8::{encode_utf8, valid_utf8};

verus! {

/// What can go wrong reading a stream or a handshake.
#[verifier::external_type_specification]
pub struct ExError(Error);

/// The payload of a close frame that carried one.
#[verifier::external_type_specification]
pub struct ExCloseFrame(CloseFrame);

/// Something complete that the decoder pulled out of the byte stream.
#[verifier::external_type_specification]
pub struct ExEvent(Event);

/// Where a whole frame's payload lies in the buffer it was read into.
#[verifier::external_type_specification]
pub struct ExWholeFrame(WholeFrame);

/// Where a frame packed for echoing lies, and where the client's frame ended.
#[verifier::external_type_specification]
pub struct ExEchoFrame(EchoFrame);

/// What a look at an upgrade request found.
#[verifier::external_type_specification]
pub struct ExUpgrade(Upgrade);

/// The incremental frame decoder. Its fields are private to `ramjet_ws`.
#[verifier::external_type_specification]
#[verifier::external_body]
pub struct ExDecoder(Decoder);

/// Why bytes were not UTF-8.
#[verifier::external_type_specification]
#[verifier::external_body]
pub struct ExUtf8Error(Utf8Error);

/// An event by the bytes it carries.
#[verifier::ext_equal]
pub enum EventView {
    /// A text message, as UTF-8.
    Text(Seq<u8>),
    /// A binary message.
    Binary(Seq<u8>),
    /// A ping's payload.
    Ping(Seq<u8>),
    /// A pong's payload.
    Pong(Seq<u8>),
    /// A close, with its code where it carried one.
    Close(Option<u16>),
}

/// The bytes an event carries.
pub open spec fn event_view(event: Event) -> EventView {
    match event {
        Event::Text(text) => EventView::Text(encode_utf8(text@)),
        Event::Binary(data) => EventView::Binary(data@),
        Event::Ping(payload) => EventView::Ping(payload@),
        Event::Pong(payload) => EventView::Pong(payload@),
        Event::Close(None) => EventView::Close(None),
        Event::Close(Some(frame)) => EventView::Close(Some(frame.code)),
    }
}

/// The event of a whole data message of this kind.
pub open spec fn data_event(kind: MessageKind, data: Seq<u8>) -> EventView {
    match kind {
        MessageKind::Text => EventView::Text(data),
        MessageKind::Binary => EventView::Binary(data),
    }
}

/// The outcome of pulling an event, with the event by its bytes.
pub open spec fn pulled_view(r: Result<Option<Event>, Error>) -> Result<Option<EventView>, Error> {
    match r {
        Ok(Some(event)) => Ok(Some(event_view(event))),
        Ok(None) => Ok(None),
        Err(e) => Err(e),
    }
}

/// Close codes that may stand in a close frame.
pub open spec fn wire_close_code(code: u16) -> bool {
    1000 <= code <= 1003 || 1007 <= code <= 1011 || 3000 <= code <= 4999
}

/// What the decoder promises of an event: a message within the limit, a control
/// payload of at most 125 bytes, a close code that may stand on the wire.
pub open spec fn event_fits(event: EventView, limit: usize) -> bool {
    match event {
        EventView::Text(data) => data.len() <= limit,
        EventView::Binary(data) => data.len() <= limit,
        EventView::Ping(payload) => payload.len() <= 125,
        EventView::Pong(payload) => payload.len() <= 125,
        EventView::Close(Some(code)) => wire_close_code(code),
        EventView::Close(None) => true,
    }
}

/// A whole data frame found in a buffer: its kind, and where its payload starts
/// and ends.
pub struct Located {
    pub kind: MessageKind,
    pub start: int,
    pub end: int,
}

impl Located {
    /// Where a masked client frame that begins at the front of `bytes` has its
    /// payload: inside `bytes`, behind its header, as long as that header says;
    /// the header is at least four bytes longer than the one a server writes for
    /// the same payload, and the payload no longer than the decoder's limit. The
    /// frame's first byte says its kind, and the payload of a text frame is UTF-8
    /// once it is unmasked.
    pub open spec fn lies_in(self, bytes: Seq<u8>, limit: usize) -> bool {
        &&& self.start == client_header_len(bytes)
        &&& self.end == self.start + client_payload_len(bytes)
        &&& 0 <= self.start <= self.end <= bytes.len()
        &&& header_len((self.end - self.start) as nat) + 4 <= self.start
        &&& self.end - self.start <= limit
        &&& bytes[0] == first_byte(self.kind)
        &&& self.kind == MessageKind::Text ==> valid_utf8(unmasked(bytes, self.start, self.end))
    }
}

/// A decoder by what it has been given and what it has given back.
#[verifier::ext_equal]
pub struct DecoderView {
    /// The longest message it accepts.
    pub limit: usize,
    /// Every byte it was fed, from the first.
    pub fed: Seq<u8>,
    /// How many events it has handed out.
    pub pulled: nat,
    /// The error it is stuck on, once there is one.
    pub failed: Option<Error>,
}

/// The message limit a decoder was made with.
pub uninterp spec fn decoder_limit(decoder: Decoder) -> usize;

/// Every byte a decoder was fed, from the first.
pub uninterp spec fn decoder_fed(decoder: Decoder) -> Seq<u8>;

/// How many events a decoder has handed out.
pub uninterp spec fn decoder_pulled(decoder: Decoder) -> nat;

/// The error a decoder is stuck on, once there is one.
pub uninterp spec fn decoder_failed(decoder: Decoder) -> Option<Error>;

/// What a decoder holds.
pub open spec fn decoder_view(decoder: Decoder) -> DecoderView {
    DecoderView {
        limit: decoder_limit(decoder),
        fed: decoder_fed(decoder),
        pulled: decoder_pulled(decoder),
        failed: decoder_failed(decoder),
    }
}

/// What pulling the next event gives: the decoder has accepted no message
/// longer than `limit`, was fed `fed`, and has handed out `pulled` events.
pub uninterp spec fn stream_event(limit: usize, fed: Seq<u8>, pulled: nat) -> Result<
    Option<EventView>,
    Error,
>;

/// What `bytes` hold for a decoder that is asked for one whole data frame
/// reaching from their front to their end.
pub uninterp spec fn whole_frame(
    limit: usize,
    fed: Seq<u8>,
    pulled: nat,
    bytes: Seq<u8>,
) -> Result<Option<Located>, Error>;

/// What `bytes` hold for a decoder that is asked for a whole data frame at
/// their front, whatever follows it.
pub uninterp spec fn front_frame(
    limit: usize,
    fed: Seq<u8>,
    pulled: nat,
    bytes: Seq<u8>,
) -> Result<Option<Located>, Error>;

/// What an upgrade request is answered: the response and the bytes it took, or
/// nothing yet.
pub uninterp spec fn upgrade_answer(bytes: Seq<u8>) -> Result<Option<(Seq<u8>, int)>, Error>;

impl DecoderView {
    /// A decoder with this limit that has seen nothing.
    pub open spec fn fresh(limit: usize) -> DecoderView {
        DecoderView { limit, fed: Seq::empty(), pulled: 0, failed: None }
    }

    /// What pulling the next event gives. An error is terminal: the same one
    /// comes back ever after.
    pub open spec fn next(self) -> Result<Option<EventView>, Error> {
        match self.failed {
            Some(e) => Err(e),
            None => stream_event(self.limit, self.fed, self.pulled),
        }
    }

    /// What `bytes` hold as one whole data frame and nothing else.
    pub open spec fn whole(self, bytes: Seq<u8>) -> Result<Option<Located>, Error> {
        match self.failed {
            Some(e) => Err(e),
            None => whole_frame(self.limit, self.fed, self.pulled, bytes),
        }
    }

    /// What `bytes` hold as a whole data frame at their front.
    pub open spec fn front(self, bytes: Seq<u8>) -> Result<Option<Located>, Error> {
        match self.failed {
            Some(e) => Err(e),
            None => front_frame(self.limit, self.fed, self.pulled, bytes),
        }
    }

    /// Whether looking for a frame spoils the buffer that this error is found in:
    /// a text that turns out not to be UTF-8 is unmasked by then.
    pub open spec fn spoils(self, e: Error) -> bool {
        self.failed is None && e is InvalidUtf8
    }

    /// The decoder, stuck on `e`.
    pub open spec fn fail(self, e: Error) -> DecoderView {
        DecoderView { failed: Some(e), ..self }
    }

    /// The decoder after one more event was handed out.
    pub open spec fn pull(self) -> DecoderView {
        DecoderView { pulled: self.pulled + 1, ..self }
    }

    /// The decoder with more bytes.
    pub open spec fn feed(self, bytes: Seq<u8>) -> DecoderView {
        DecoderView { fed: self.fed + bytes, ..self }
    }
}

/// Whether `bytes` has a blank line, the end of an HTTP header block, ending at
/// `end`.
pub open spec fn blank_line_ends(bytes: Seq<u8>, end: int) -> bool {
    &&& 4 <= end <= bytes.len()
    &&& bytes[end - 4] == 13
    &&& bytes[end - 3] == 10
    &&& bytes[end - 2] == 13
    &&& bytes[end - 1] == 10
}

/// The close code each error earns.
pub open spec fn error_close_code(e: Error) -> u16 {
    match e {
        Error::Protocol(_) => 1002,
        Error::Handshake(_) => 1002,
        Error::InvalidUtf8 => 1007,
        Error::TooLarge { .. } => 1009,
    }
}

/// `ramjet_ws::Error::close_code`: 1002 for a broken protocol or handshake,
/// 1007 for bad UTF-8, 1009 for a message past the limit.
pub assume_specification[ Error::close_code ](e: &Error) -> (code: u16)
    ensures
        code == error_close_code(*e),
;

/// `ramjet_ws::encode::text`: appends the payload's UTF-8 as one unmasked text
/// frame.
pub assume_specification[ encode::text ](out: &mut Vec<u8>, payload: &str)
    ensures
        final(out)@ == old(out)@ + server_frame(TEXT, encode_utf8(payload@)),
;

/// `ramjet_ws::encode::binary`: appends the payload as one unmasked binary
/// frame.
pub assume_specification[ encode::binary ](out: &mut Vec<u8>, payload: &[u8])
    ensures
        final(out)@ == old(out)@ + server_frame(BINARY, payload@),
;

/// `ramjet_ws::encode::pong`: appends the payload as one pong frame; fails,
/// appending nothing, where the payload is longer than 125 bytes.
pub assume_specification[ encode::pong ](out: &mut Vec<u8>, payload: &[u8]) -> (r: Result<
    (),
    Error,
>)
    ensures
        r is Ok <==> payload@.len() <= 125,
        final(out)@ == if payload@.len() <= 125 {
            old(out)@ + server_frame(PONG, payload@)
        } else {
            old(out)@
        },
;

/// `ramjet_ws::encode::close`: appends a close frame whose payload is the code,
/// most significant byte first, and the reason's UTF-8; fails, appending
/// nothing, where that is longer than 125 bytes.
pub assume_specification[ encode::close ](
    out: &mut Vec<u8>,
    code: u16,
    reason: &str,
) -> (r: Result<(), Error>)
    ensures
        r is Ok <==> encode_utf8(reason@).len() <= 123,
        final(out)@ == if encode_utf8(reason@).len() <= 123 {
            old(out)@ + server_frame(CLOSE, be16(code as nat) + encode_utf8(reason@))
        } else {
            old(out)@
        },
;

/// The outcome of a look at an upgrade request, with the response by its bytes.
pub open spec fn upgrade_view(r: Result<Upgrade, Error>) -> Result<
    Option<(Seq<u8>, int)>,
    Error,
> {
    match r {
        Ok(Upgrade::NeedMore) => Ok(None),
        Ok(Upgrade::Accept { response, consumed }) => Ok(Some((response@, consumed as int))),
        Err(e) => Err(e),
    }
}

/// The outcome of a look for a whole frame, with the frame by its place.
pub open spec fn located_view(r: Result<Option<WholeFrame>, Error>) -> Result<
    Option<Located>,
    Error,
> {
    match r {
        Ok(Some(frame)) => Ok(
            Some(
                Located {
                    kind: frame.kind,
                    start: frame.payload.start as int,
                    end: frame.payload.end as int,
                },
            ),
        ),
        Ok(None) => Ok(None),
        Err(e) => Err(e),
    }
}

/// `ramjet_ws::handshake::upgrade`: asks for more until the first blank line,
/// and then answers the request that ends there, or refuses it. What it answers
/// is a function of the bytes, named by `upgrade_answer`. Bytes that follow the
/// blank line make no difference to the answer; and where more is asked for, a
/// request that is accepted later ends in the bytes that follow.
pub assume_specification[ handshake::upgrade ](bytes: &[u8]) -> (r: Result<Upgrade, Error>)
    ensures
        upgrade_view(r) == upgrade_answer(bytes@),
        (r is Ok && r->Ok_0 is NeedMore) <==> (forall|end: int| !blank_line_ends(bytes@, end)),
        r matches Ok(Upgrade::Accept { response: _, consumed }) ==> {
            &&& blank_line_ends(bytes@, consumed as int)
            &&& forall|end: int| end < consumed ==> !blank_line_ends(bytes@, end)
        },
        !(r is Ok && r->Ok_0 is NeedMore) ==> forall|more: Seq<u8>| #[trigger]
            upgrade_answer(bytes@ + more) == upgrade_view(r),
        (r is Ok && r->Ok_0 is NeedMore) ==> forall|more: Seq<u8>|
            (#[trigger] upgrade_answer(bytes@ + more) matches Ok(Some((_, consumed)))
                ==> consumed > bytes@.len()),
;

/// `ramjet_ws::Decoder::with_max_message`: a decoder that has seen nothing and
/// refuses any message larger than `max_message` bytes.
pub assume_specification[ Decoder::with_max_message ](max_message: usize) -> (decoder: Decoder)
    ensures
        decoder_limit(decoder) == max_message,
        decoder_fed(decoder) == Seq::<u8>::empty(),
        decoder_pulled(decoder) == 0,
        decoder_failed(decoder) is None,
;

/// `ramjet_ws::Decoder::feed`: the decoder has these bytes too.
pub assume_specification[ Decoder::feed ](decoder: &mut Decoder, bytes: &[u8])
    ensures
        decoder_view(*final(decoder)) == decoder_view(*old(decoder)).feed(bytes@),
;

/// `ramjet_ws::Decoder::next_event`: the next complete event of the byte
/// stream, named by `stream_event`; where the bytes were split as they were fed
/// makes no difference, and an event or an error stays the same whatever bytes
/// follow. A decoder that was fed nothing has no event to hand out. An error is
/// terminal. A message is never longer than the limit, a control frame's payload
/// never longer than 125 bytes, and a close code is one that may stand on the
/// wire. Each event takes bytes of its own, so there are never more events than
/// bytes.
pub assume_specification[ Decoder::next_event ](decoder: &mut Decoder) -> (r: Result<
    Option<Event>,
    Error,
>)
    ensures
        decoder_failed(*old(decoder)) matches Some(e) ==> r is Err && r->Err_0 == e,
        decoder_failed(*old(decoder)) is None ==> pulled_view(r) == stream_event(
            decoder_limit(*old(decoder)),
            decoder_fed(*old(decoder)),
            decoder_pulled(*old(decoder)),
        ),
        decoder_view(*final(decoder)) == match r {
            Ok(Some(_)) => decoder_view(*old(decoder)).pull(),
            Ok(None) => decoder_view(*old(decoder)),
            Err(e) => decoder_view(*old(decoder)).fail(e),
        },
        decoder_failed(*old(decoder)) is None && decoder_fed(*old(decoder)).len() == 0 ==> r is Ok
            && r->Ok_0 is None,
        r matches Ok(Some(event)) ==> event_fits(event_view(event), decoder_limit(*old(decoder))),
        r matches Ok(Some(_)) ==> decoder_pulled(*final(decoder)) <= decoder_fed(
            *old(decoder),
        ).len(),
        decoder_failed(*old(decoder)) is None && !(r is Ok && r->Ok_0 is None)
            ==> forall|more: Seq<u8>| #[trigger]
            stream_event(
                decoder_limit(*old(decoder)),
                decoder_fed(*old(decoder)) + more,
                decoder_pulled(*old(decoder)),
            ) == pulled_view(r),
;

/// `ramjet_ws::Decoder::take_whole_frame`: where the buffer is exactly one
/// whole data frame, unmasks its payload where it lies and says where that is;
/// what is found is named by `whole_frame`. A decoder that was fed the buffer
/// instead would hand out the same message, and then nothing more. Where the
/// buffer is not that, it is left alone. An error is the one that a decoder that
/// was fed the buffer instead would run into, and is terminal; it leaves the
/// buffer alone too, but for a text that is not UTF-8, which is unmasked by then.
pub assume_specification[ Decoder::take_whole_frame ](
    decoder: &mut Decoder,
    buf: &mut [u8],
) -> (r: Result<Option<WholeFrame>, Error>)
    ensures
        decoder_failed(*old(decoder)) matches Some(e) ==> r is Err && r->Err_0 == e,
        decoder_failed(*old(decoder)) is None ==> located_view(r) == whole_frame(
            decoder_limit(*old(decoder)),
            decoder_fed(*old(decoder)),
            decoder_pulled(*old(decoder)),
            old(buf)@,
        ),
        decoder_view(*final(decoder)) == match r {
            Ok(_) => decoder_view(*old(decoder)),
            Err(e) => decoder_view(*old(decoder)).fail(e),
        },
        final(buf)@.len() == old(buf)@.len(),
        r matches Ok(None) ==> final(buf)@ == old(buf)@,
        r matches Err(e) ==> final(buf)@ == if decoder_failed(*old(decoder)) is None
            && e is InvalidUtf8 {
            unmasked_to(old(buf)@, 0, client_header_len(old(buf)@))
        } else {
            old(buf)@
        },
        decoder_failed(*old(decoder)) is None ==> (r matches Err(e) ==> {
            let streamed = stream_event(
                decoder_limit(*old(decoder)),
                decoder_fed(*old(decoder)) + old(buf)@,
                decoder_pulled(*old(decoder)),
            );
            streamed is Err && streamed->Err_0 == e
        }),
        r matches Ok(Some(frame)) ==> {
            &&& located_view(r)->Ok_0->Some_0.lies_in(old(buf)@, decoder_limit(*old(decoder)))
            &&& frame.payload.end == old(buf)@.len()
            &&& final(buf)@ == old(buf)@.take(frame.payload.start as int) + unmasked(
                old(buf)@,
                frame.payload.start as int,
                frame.payload.end as int,
            )
            &&& stream_event(
                decoder_limit(*old(decoder)),
                decoder_fed(*old(decoder)) + old(buf)@,
                decoder_pulled(*old(decoder)),
            ) == Ok::<Option<EventView>, Error>(
                Some(data_event(frame.kind, final(buf)@.skip(frame.payload.start as int))),
            )
            &&& stream_event(
                decoder_limit(*old(decoder)),
                decoder_fed(*old(decoder)) + old(buf)@,
                decoder_pulled(*old(decoder)) + 1,
            ) == Ok::<Option<EventView>, Error>(None)
        },
;

/// `ramjet_ws::Decoder::take_echo_frame_at`: where a whole data frame begins at
/// `from`, packs its echo at `to` and says where that is and where the client's
/// frame ended; what is found is named by `front_frame`. Only the bytes that the
/// echo takes are written. A decoder takes such a frame only when it has nothing
/// unfinished; had it been fed the frame and whatever follows instead, it would
/// hand out the frame's message and then what it hands out of what follows.
/// Where there is no such frame, the buffer is left alone. An error is the one
/// that a decoder that was fed the bytes from `from` on would run into, and is
/// terminal; it leaves the buffer alone too, but for a text that is not UTF-8,
/// which by then lies unmasked where its echo's payload would have been.
pub assume_specification[ Decoder::take_echo_frame_at ](
    decoder: &mut Decoder,
    buf: &mut [u8],
    from: usize,
    to: usize,
) -> (r: Result<Option<EchoFrame>, Error>)
    requires
        to <= from <= old(buf)@.len(),
    ensures
        decoder_failed(*old(decoder)) matches Some(e) ==> r is Err && r->Err_0 == e,
        decoder_failed(*old(decoder)) is None ==> match front_frame(
            decoder_limit(*old(decoder)),
            decoder_fed(*old(decoder)),
            decoder_pulled(*old(decoder)),
            old(buf)@.skip(from as int),
        ) {
            Ok(Some(found)) => {
                &&& r matches Ok(Some(echo))
                &&& found.lies_in(old(buf)@.skip(from as int), decoder_limit(*old(decoder)))
                &&& echo.consumed == from + found.end
                &&& echo.frame.start == to
                &&& echo.payload.start == to + header_len((found.end - found.start) as nat)
                &&& echo.payload.end == echo.payload.start + (found.end - found.start)
                &&& echo.frame.end == echo.payload.end
                &&& final(buf)@ == old(buf)@.take(to as int) + server_frame(
                    first_byte(found.kind),
                    unmasked(old(buf)@.skip(from as int), found.start, found.end),
                ) + old(buf)@.skip(echo.frame.end as int)
                &&& stream_event(
                    decoder_limit(*old(decoder)),
                    decoder_fed(*old(decoder)),
                    decoder_pulled(*old(decoder)),
                ) == Ok::<Option<EventView>, Error>(None)
                &&& forall|more: Seq<u8>, n: nat|
                    n >= decoder_pulled(*old(decoder)) ==> #[trigger] stream_event(
                        decoder_limit(*old(decoder)),
                        decoder_fed(*old(decoder)) + old(buf)@.skip(from as int).take(found.end)
                            + more,
                        n,
                    ) == if n == decoder_pulled(*old(decoder)) {
                        Ok::<Option<EventView>, Error>(
                            Some(
                                data_event(
                                    found.kind,
                                    unmasked(
                                        old(buf)@.skip(from as int),
                                        found.start,
                                        found.end,
                                    ),
                                ),
                            ),
                        )
                    } else {
                        stream_event(
                            decoder_limit(*old(decoder)),
                            decoder_fed(*old(decoder)) + more,
                            (n - 1) as nat,
                        )
                    }
            },
            Ok(None) => r is Ok && r->Ok_0 is None,
            Err(e) => r is Err && r->Err_0 == e,
        },
        decoder_view(*final(decoder)) == match r {
            Ok(_) => decoder_view(*old(decoder)),
            Err(e) => decoder_view(*old(decoder)).fail(e),
        },
        final(buf)@.len() == old(buf)@.len(),
        r matches Ok(None) ==> final(buf)@ == old(buf)@,
        r matches Err(e) ==> final(buf)@ == if decoder_failed(*old(decoder)) is None
            && e is InvalidUtf8 {
            unmasked_to(
                old(buf)@,
                from as int,
                to + header_len(client_payload_len(old(buf)@.skip(from as int)) as nat),
            )
        } else {
            old(buf)@
        },
        decoder_failed(*old(decoder)) is None ==> (r matches Err(e) ==> (e is InvalidUtf8
            ==> client_header_len(old(buf)@.skip(from as int)) + client_payload_len(
            old(buf)@.skip(from as int),
        ) <= old(buf)@.skip(from as int).len())),
        decoder_failed(*old(decoder)) is None ==> (r matches Err(e) ==> {
            let streamed = stream_event(
                decoder_limit(*old(decoder)),
                decoder_fed(*old(decoder)) + old(buf)@.skip(from as int),
                decoder_pulled(*old(decoder)),
            );
            streamed is Err && streamed->Err_0 == e
        }),
;

/// `std::str::from_utf8`: the bytes as a string where they are UTF-8, and an
/// error where they are not.
pub assume_specification<'a>[ std::str::from_utf8 ](bytes: &'a [u8]) -> (r: Result<
    &'a str,
    Utf8Error,
>)
    ensures
        r is Ok <==> valid_utf8(bytes@),
        r matches Ok(text) ==> encode_utf8(text@) == bytes@,
;

/// `String::into_bytes`: the string's UTF-8.
pub assume_specification[ String::into_bytes ](text: String) -> (bytes: Vec<u8>)
    ensures
        bytes@ == encode_utf8(text@),
;

} // verus!
