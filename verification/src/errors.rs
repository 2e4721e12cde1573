//! What the errors say.

use vstd::prelude::*;
use vstd::string::StringExecFns;
use crate::bencode::{BencodeError, LookupError, SpanError};
use crate::decimal::NumberError;
use crate::download::{DownloadError, HashMismatch};
use crate::peer::{HandshakeError, MessageError};
use crate::text::{self, push_escaped, push_number, Utf8Fault};
use crate::torrent::TorrentError;
use crate::tracker::response::{Refusal, ResponseError};
use crate::tracker::udp::{BadEndpoint, EndpointError, UdpError};

verus! {

impl NumberError {
    /// The text of the error.
    pub open spec fn message(self) -> Seq<char> {
        match self {
            NumberError::Empty => "cannot parse integer from empty string"@,
            NumberError::InvalidDigit => "invalid digit found in string"@,
            NumberError::TooLarge => "number too large to fit in target type"@,
            NumberError::TooSmall => "number too small to fit in target type"@,
        }
    }

    /// Writes the text of the error.
    pub fn to_string(&self) -> (r: String)
        ensures
            r@ == self.message(),
    {
        match *self {
            NumberError::Empty => "cannot parse integer from empty string".to_owned(),
            NumberError::InvalidDigit => "invalid digit found in string".to_owned(),
            NumberError::TooLarge => "number too large to fit in target type".to_owned(),
            NumberError::TooSmall => "number too small to fit in target type".to_owned(),
        }
    }
}

impl Utf8Fault {
    /// The text of the error.
    pub open spec fn message(self) -> Seq<char> {
        match self.error_len {
            Some(length) => {
                "invalid utf-8 sequence of "@ + text::number_text(length as nat)
                    + " bytes from index "@ + text::number_text(self.valid_up_to as nat)
            },
            None => {
                "incomplete utf-8 byte sequence from index "@ + text::number_text(
                    self.valid_up_to as nat,
                )
            },
        }
    }

    /// Writes the text of the error.
    pub fn to_string(&self) -> (r: String)
        ensures
            r@ == self.message(),
    {
        let mut s = String::new();
        match self.error_len {
            Some(length) => {
                s.append("invalid utf-8 sequence of ");
                push_number(&mut s, length as u64);
                s.append(" bytes from index ");
            },
            None => {
                s.append("incomplete utf-8 byte sequence from index ");
            },
        }
        push_number(&mut s, self.valid_up_to as u64);
        assert(s@ =~= self.message());
        s
    }
}

impl BencodeError {
    /// The text of the error.
    pub open spec fn message(self) -> Seq<char> {
        match self {
            BencodeError::UnexpectedEnd => "Unexpected end of data"@,
            BencodeError::InvalidPrefix { prefix, offset } => {
                "Invalid bencode prefix: '"@ + text::escaped(prefix) + "' at offset "@
                    + text::number_text(offset as nat)
            },
            BencodeError::UnterminatedInt { offset } => {
                "Unterminated integer at "@ + text::number_text(offset as nat)
            },
            BencodeError::InvalidUtf8(e) => e.message(),
            BencodeError::InvalidNumber(e) => e.message(),
            BencodeError::MissingColon { offset } => {
                "Missing colon in byte string at "@ + text::number_text(offset as nat)
            },
            BencodeError::StringTooLong { length, offset } => {
                "Byte string exceeds data length: requested "@ + text::number_text(length as nat)
                    + " bytes at offset "@ + text::number_text(offset as nat)
            },
            BencodeError::LengthOverflow { length, offset } => {
                "Byte string exceeds every data length: requested "@
                    + text::number_text(length as nat) + " bytes at offset "@
                    + text::number_text(offset as nat)
            },
            BencodeError::UnterminatedList => "Unterminated list"@,
            BencodeError::UnterminatedDict => "Unterminated dictionary"@,
            BencodeError::KeyNotByteString { offset } => {
                "Dictionary keys must be byte strings at offset "@
                    + text::number_text(offset as nat)
            },
        }
    }

    /// Writes the text of the error.
    pub fn to_string(&self) -> (r: String)
        ensures
            r@ == self.message(),
    {
        let mut s = String::new();
        match *self {
            BencodeError::UnexpectedEnd => {
                s.append("Unexpected end of data");
            },
            BencodeError::InvalidPrefix { prefix, offset } => {
                s.append("Invalid bencode prefix: '");
                push_escaped(&mut s, prefix);
                s.append("' at offset ");
                push_number(&mut s, offset as u64);
            },
            BencodeError::UnterminatedInt { offset } => {
                s.append("Unterminated integer at ");
                push_number(&mut s, offset as u64);
            },
            BencodeError::InvalidUtf8(e) => {
                s.append(e.to_string().as_str());
            },
            BencodeError::InvalidNumber(e) => {
                s.append(e.to_string().as_str());
            },
            BencodeError::MissingColon { offset } => {
                s.append("Missing colon in byte string at ");
                push_number(&mut s, offset as u64);
            },
            BencodeError::StringTooLong { length, offset } => {
                s.append("Byte string exceeds data length: requested ");
                push_number(&mut s, length as u64);
                s.append(" bytes at offset ");
                push_number(&mut s, offset as u64);
            },
            BencodeError::LengthOverflow { length, offset } => {
                s.append("Byte string exceeds every data length: requested ");
                push_number(&mut s, length as u64);
                s.append(" bytes at offset ");
                push_number(&mut s, offset as u64);
            },
            BencodeError::UnterminatedList => {
                s.append("Unterminated list");
            },
            BencodeError::UnterminatedDict => {
                s.append("Unterminated dictionary");
            },
            BencodeError::KeyNotByteString { offset } => {
                s.append("Dictionary keys must be byte strings at offset ");
                push_number(&mut s, offset as u64);
            },
        }
        assert(s@ =~= self.message());
        s
    }
}

impl SpanError {
    /// The text of the error.
    pub open spec fn message(self) -> Seq<char> {
        match self {
            SpanError::EmptyBuffer => "Empty buffer"@,
            SpanError::InvalidToken(token) => "Invalid bencode token: "@ + seq![token as char],
            SpanError::UnterminatedInt => "Unterminated int"@,
            SpanError::MissingColon => "Missing colon in string"@,
            SpanError::InvalidUtf8(e) => e.message(),
            SpanError::InvalidNumber(e) => e.message(),
            SpanError::StringTooLong => "String exceeds available bytes"@,
            SpanError::LengthOverflow => "String exceeds every number of bytes"@,
            SpanError::UnterminatedList => "Unterminated list"@,
            SpanError::UnterminatedDict => "Unterminated dict"@,
        }
    }

    /// Writes the text of the error.
    pub fn to_string(&self) -> (r: String)
        ensures
            r@ == self.message(),
    {
        let mut s = String::new();
        match *self {
            SpanError::EmptyBuffer => {
                s.append("Empty buffer");
            },
            SpanError::InvalidToken(token) => {
                s.append("Invalid bencode token: ");
                s.push(token as char);
            },
            SpanError::UnterminatedInt => {
                s.append("Unterminated int");
            },
            SpanError::MissingColon => {
                s.append("Missing colon in string");
            },
            SpanError::InvalidUtf8(e) => {
                s.append(e.to_string().as_str());
            },
            SpanError::InvalidNumber(e) => {
                s.append(e.to_string().as_str());
            },
            SpanError::StringTooLong => {
                s.append("String exceeds available bytes");
            },
            SpanError::LengthOverflow => {
                s.append("String exceeds every number of bytes");
            },
            SpanError::UnterminatedList => {
                s.append("Unterminated list");
            },
            SpanError::UnterminatedDict => {
                s.append("Unterminated dict");
            },
        }
        assert(s@ =~= self.message());
        s
    }
}

impl LookupError {
    /// The text of the error.
    pub open spec fn message(self) -> Seq<char> {
        match self {
            LookupError::NotADict => "Expected dictionary start 'd'"@,
            LookupError::Span(e) => e.message(),
            LookupError::Key(e) => e.message(),
            LookupError::KeyNotByteString => "Key is not byte string"@,
            LookupError::NotFound => "Key not found in dictionary"@,
        }
    }

    /// Writes the text of the error.
    pub fn to_string(&self) -> (r: String)
        ensures
            r@ == self.message(),
    {
        let mut s = String::new();
        match *self {
            LookupError::NotADict => {
                s.append("Expected dictionary start 'd'");
            },
            LookupError::Span(e) => {
                s.append(e.to_string().as_str());
            },
            LookupError::Key(e) => {
                s.append(e.to_string().as_str());
            },
            LookupError::KeyNotByteString => {
                s.append("Key is not byte string");
            },
            LookupError::NotFound => {
                s.append("Key not found in dictionary");
            },
        }
        assert(s@ =~= self.message());
        s
    }
}

impl TorrentError {
    /// The text of the error.
    pub open spec fn message(self) -> Seq<char> {
        match self {
            TorrentError::Decode(_) => "Failed to parse bencode data"@,
            TorrentError::RootNotDict => "Root of torrent must be a dictionary"@,
            TorrentError::MissingAnnounce => "Missing 'announce' URL"@,
            TorrentError::RawInfo(_) => {
                "Failed to locate raw 'info' dictionary in torrent file"@
            },
            TorrentError::MissingInfo => "Missing 'info' dict"@,
            TorrentError::InfoNotDict => "'info' must be a dictionary"@,
            TorrentError::MissingPieceLength => "Missing 'piece length'"@,
            TorrentError::MissingPieces => "Missing 'pieces' field"@,
            TorrentError::InvalidPieces => "Invalid pieces field length: not a multiple of 20"@,
            TorrentError::FileNotDict => "File entry must be a dictionary"@,
            TorrentError::MissingFileLength => "Missing 'length' in file entry"@,
            TorrentError::LengthOverflow => "File lengths exceed every content length"@,
            TorrentError::MissingLength => {
                "Torrent has neither 'length' nor 'files' in info dictionary"@
            },
        }
    }

    /// Writes the text of the error.
    pub fn to_string(&self) -> (r: String)
        ensures
            r@ == self.message(),
    {
        let mut s = String::new();
        match *self {
            TorrentError::Decode(_) => {
                s.append("Failed to parse bencode data");
            },
            TorrentError::RootNotDict => {
                s.append("Root of torrent must be a dictionary");
            },
            TorrentError::MissingAnnounce => {
                s.append("Missing 'announce' URL");
            },
            TorrentError::RawInfo(_) => {
                s.append("Failed to locate raw 'info' dictionary in torrent file");
            },
            TorrentError::MissingInfo => {
                s.append("Missing 'info' dict");
            },
            TorrentError::InfoNotDict => {
                s.append("'info' must be a dictionary");
            },
            TorrentError::MissingPieceLength => {
                s.append("Missing 'piece length'");
            },
            TorrentError::MissingPieces => {
                s.append("Missing 'pieces' field");
            },
            TorrentError::InvalidPieces => {
                s.append("Invalid pieces field length: not a multiple of 20");
            },
            TorrentError::FileNotDict => {
                s.append("File entry must be a dictionary");
            },
            TorrentError::MissingFileLength => {
                s.append("Missing 'length' in file entry");
            },
            TorrentError::LengthOverflow => {
                s.append("File lengths exceed every content length");
            },
            TorrentError::MissingLength => {
                s.append("Torrent has neither 'length' nor 'files' in info dictionary");
            },
        }
        assert(s@ =~= self.message());
        s
    }

    /// The text of the error that caused this one.
    pub open spec fn cause_message(self) -> Option<Seq<char>> {
        match self {
            TorrentError::Decode(e) => Some(e.message()),
            TorrentError::RawInfo(e) => Some(e.message()),
            _ => None,
        }
    }

    /// Writes the text of the error that caused this one, where there is one.
    pub fn cause(&self) -> (r: Option<String>)
        ensures
            match (r, self.cause_message()) {
                (Some(s), Some(t)) => s@ == t,
                (None, None) => true,
                _ => false,
            },
    {
        match *self {
            TorrentError::Decode(e) => Some(e.to_string()),
            TorrentError::RawInfo(e) => Some(e.to_string()),
            _ => None,
        }
    }
}

impl HandshakeError {
    /// The text of the error.
    pub open spec fn message(self) -> Seq<char> {
        match self {
            HandshakeError::TooShort { length } => {
                "Handshake buffer too short: "@ + text::number_text(length as nat) + " bytes"@
            },
            HandshakeError::InvalidProtocol => "Invalid protocol string in handshake"@,
            HandshakeError::InfoHashMismatch => "Peer returned mismatched info_hash"@,
        }
    }

    /// Writes the text of the error.
    pub fn to_string(&self) -> (r: String)
        ensures
            r@ == self.message(),
    {
        let mut s = String::new();
        match *self {
            HandshakeError::TooShort { length } => {
                s.append("Handshake buffer too short: ");
                push_number(&mut s, length as u64);
                s.append(" bytes");
            },
            HandshakeError::InvalidProtocol => {
                s.append("Invalid protocol string in handshake");
            },
            HandshakeError::InfoHashMismatch => {
                s.append("Peer returned mismatched info_hash");
            },
        }
        assert(s@ =~= self.message());
        s
    }
}

impl MessageError {
    /// The text of the error.
    pub open spec fn message(self) -> Seq<char> {
        match self {
            MessageError::InvalidHave => "Invalid Have message length"@,
            MessageError::InvalidRequest => "Invalid Request message length"@,
            MessageError::InvalidPiece => "Invalid Piece message length"@,
            MessageError::InvalidCancel => "Invalid Cancel message length"@,
            MessageError::UnknownId(id) => "Unknown message ID: "@ + text::number_text(id as nat),
        }
    }

    /// Writes the text of the error.
    pub fn to_string(&self) -> (r: String)
        ensures
            r@ == self.message(),
    {
        let mut s = String::new();
        match *self {
            MessageError::InvalidHave => {
                s.append("Invalid Have message length");
            },
            MessageError::InvalidRequest => {
                s.append("Invalid Request message length");
            },
            MessageError::InvalidPiece => {
                s.append("Invalid Piece message length");
            },
            MessageError::InvalidCancel => {
                s.append("Invalid Cancel message length");
            },
            MessageError::UnknownId(id) => {
                s.append("Unknown message ID: ");
                push_number(&mut s, id as u64);
            },
        }
        assert(s@ =~= self.message());
        s
    }
}

impl UdpError {
    /// The text of the error.
    pub open spec fn message(self) -> Seq<char> {
        match self {
            UdpError::ConnectTooShort => "UDP tracker connection response too short"@,
            UdpError::InvalidConnect => "Invalid UDP connect response"@,
            UdpError::AnnounceTooShort => "UDP tracker announce response too short"@,
            UdpError::InvalidAnnounce => "Invalid UDP announce response"@,
        }
    }

    /// Writes the text of the error.
    pub fn to_string(&self) -> (r: String)
        ensures
            r@ == self.message(),
    {
        let mut s = String::new();
        match *self {
            UdpError::ConnectTooShort => {
                s.append("UDP tracker connection response too short");
            },
            UdpError::InvalidConnect => {
                s.append("Invalid UDP connect response");
            },
            UdpError::AnnounceTooShort => {
                s.append("UDP tracker announce response too short");
            },
            UdpError::InvalidAnnounce => {
                s.append("Invalid UDP announce response");
            },
        }
        assert(s@ =~= self.message());
        s
    }
}

impl DownloadError {
    /// The text of the error.
    pub open spec fn message(self) -> Seq<char> {
        match self {
            DownloadError::NoPeers => "No peers available to download from"@,
            DownloadError::Incomplete { remaining } => {
                "Download incomplete: "@ + text::number_text(remaining as nat)
                    + " piece(s) could not be downloaded"@
            },
        }
    }

    /// Writes the text of the error.
    pub fn to_string(&self) -> (r: String)
        ensures
            r@ == self.message(),
    {
        let mut s = String::new();
        match *self {
            DownloadError::NoPeers => {
                s.append("No peers available to download from");
            },
            DownloadError::Incomplete { remaining } => {
                s.append("Download incomplete: ");
                push_number(&mut s, remaining as u64);
                s.append(" piece(s) could not be downloaded");
            },
        }
        assert(s@ =~= self.message());
        s
    }
}

/// The text of a tracker's refusal.
pub open spec fn refusal_message(refusal: Refusal) -> Seq<char> {
    match refusal {
        Refusal::Decode(_) => "Failed to parse tracker bencode response"@,
        Refusal::NotADict => "Tracker response is not a dict"@,
        Refusal::Failure(reason) => "Tracker responded with failure: "@ + reason,
    }
}

impl ResponseError {
    /// Writes the text of the error.
    pub fn to_string(&self) -> (r: String)
        ensures
            r@ == refusal_message(self@),
    {
        let mut s = String::new();
        match self {
            ResponseError::Decode(_) => {
                s.append("Failed to parse tracker bencode response");
            },
            ResponseError::NotADict => {
                s.append("Tracker response is not a dict");
            },
            ResponseError::Failure(reason) => {
                s.append("Tracker responded with failure: ");
                s.append(reason.as_str());
            },
        }
        assert(s@ =~= refusal_message(self@));
        s
    }

    /// Writes the text of the error that caused this one, where there is one.
    pub fn cause(&self) -> (r: Option<String>)
        ensures
            match self@ {
                Refusal::Decode(e) => r matches Some(s) && s@ == e.message(),
                _ => r is None,
            },
    {
        match self {
            ResponseError::Decode(e) => Some(e.to_string()),
            _ => None,
        }
    }
}

/// The text of why there is no address to send to.
pub open spec fn endpoint_message(fault: BadEndpoint) -> Seq<char> {
    match fault {
        BadEndpoint::InvalidUrl(reason) => reason,
        BadEndpoint::NoHost => "No host in UDP tracker URL"@,
    }
}

impl EndpointError {
    /// Writes the text of the error.
    pub fn to_string(&self) -> (r: String)
        ensures
            r@ == endpoint_message(self@),
    {
        let mut s = String::new();
        match self {
            EndpointError::InvalidUrl(reason) => {
                s.append(reason.as_str());
            },
            EndpointError::NoHost => {
                s.append("No host in UDP tracker URL");
            },
        }
        assert(s@ =~= endpoint_message(self@));
        s
    }
}

impl HashMismatch {
    /// Writes the text of the error.
    pub fn to_string(&self) -> (r: String)
        ensures
            r@ == "Piece "@ + text::number_text(self.index as nat)
                + " SHA-1 verification failed: expected "@ + self.expected@ + ", got "@
                + self.computed@,
    {
        let mut s = String::new();
        s.append("Piece ");
        push_number(&mut s, self.index as u64);
        s.append(" SHA-1 verification failed: expected ");
        s.append(self.expected.as_str());
        s.append(", got ");
        s.append(self.computed.as_str());
        assert(s@ =~= "Piece "@ + text::number_text(self.index as nat)
            + " SHA-1 verification failed: expected "@ + self.expected@ + ", got "@
            + self.computed@);
        s
    }
}

/// An error without particulars has one text, always the same.
pub proof fn law_fixed_texts(decode: BencodeError, lookup: LookupError)
    ensures
        NumberError::Empty.message() == "cannot parse integer from empty string"@,
        NumberError::InvalidDigit.message() == "invalid digit found in string"@,
        NumberError::TooLarge.message() == "number too large to fit in target type"@,
        NumberError::TooSmall.message() == "number too small to fit in target type"@,
        BencodeError::UnexpectedEnd.message() == "Unexpected end of data"@,
        BencodeError::UnterminatedList.message() == "Unterminated list"@,
        BencodeError::UnterminatedDict.message() == "Unterminated dictionary"@,
        SpanError::EmptyBuffer.message() == "Empty buffer"@,
        SpanError::UnterminatedInt.message() == "Unterminated int"@,
        SpanError::MissingColon.message() == "Missing colon in string"@,
        SpanError::StringTooLong.message() == "String exceeds available bytes"@,
        SpanError::LengthOverflow.message() == "String exceeds every number of bytes"@,
        SpanError::UnterminatedList.message() == "Unterminated list"@,
        SpanError::UnterminatedDict.message() == "Unterminated dict"@,
        LookupError::NotADict.message() == "Expected dictionary start 'd'"@,
        LookupError::KeyNotByteString.message() == "Key is not byte string"@,
        LookupError::NotFound.message() == "Key not found in dictionary"@,
        TorrentError::Decode(decode).message() == "Failed to parse bencode data"@,
        TorrentError::RootNotDict.message() == "Root of torrent must be a dictionary"@,
        TorrentError::MissingAnnounce.message() == "Missing 'announce' URL"@,
        TorrentError::RawInfo(lookup).message()
            == "Failed to locate raw 'info' dictionary in torrent file"@,
        TorrentError::MissingInfo.message() == "Missing 'info' dict"@,
        TorrentError::InfoNotDict.message() == "'info' must be a dictionary"@,
        TorrentError::MissingPieceLength.message() == "Missing 'piece length'"@,
        TorrentError::MissingPieces.message() == "Missing 'pieces' field"@,
        TorrentError::InvalidPieces.message()
            == "Invalid pieces field length: not a multiple of 20"@,
        TorrentError::FileNotDict.message() == "File entry must be a dictionary"@,
        TorrentError::MissingFileLength.message() == "Missing 'length' in file entry"@,
        TorrentError::LengthOverflow.message() == "File lengths exceed every content length"@,
        TorrentError::MissingLength.message()
            == "Torrent has neither 'length' nor 'files' in info dictionary"@,
        HandshakeError::InvalidProtocol.message() == "Invalid protocol string in handshake"@,
        HandshakeError::InfoHashMismatch.message() == "Peer returned mismatched info_hash"@,
        MessageError::InvalidHave.message() == "Invalid Have message length"@,
        MessageError::InvalidRequest.message() == "Invalid Request message length"@,
        MessageError::InvalidPiece.message() == "Invalid Piece message length"@,
        MessageError::InvalidCancel.message() == "Invalid Cancel message length"@,
        UdpError::ConnectTooShort.message() == "UDP tracker connection response too short"@,
        UdpError::InvalidConnect.message() == "Invalid UDP connect response"@,
        UdpError::AnnounceTooShort.message() == "UDP tracker announce response too short"@,
        UdpError::InvalidAnnounce.message() == "Invalid UDP announce response"@,
        DownloadError::NoPeers.message() == "No peers available to download from"@,
{
}

/// An error with particulars names them: the byte, the offset, the length, the number.
pub proof fn law_texts_with_particulars(
    prefix: u8,
    offset: usize,
    length: usize,
    fault: Utf8Fault,
    number: NumberError,
    decode: BencodeError,
    extent: SpanError,
)
    ensures
        (BencodeError::InvalidPrefix { prefix, offset }).message() == "Invalid bencode prefix: '"@
            + text::escaped(prefix) + "' at offset "@ + text::number_text(offset as nat),
        (BencodeError::UnterminatedInt { offset }).message() == "Unterminated integer at "@
            + text::number_text(offset as nat),
        (BencodeError::MissingColon { offset }).message() == "Missing colon in byte string at "@
            + text::number_text(offset as nat),
        (BencodeError::StringTooLong { length, offset }).message()
            == "Byte string exceeds data length: requested "@ + text::number_text(length as nat)
            + " bytes at offset "@ + text::number_text(offset as nat),
        (BencodeError::KeyNotByteString { offset }).message()
            == "Dictionary keys must be byte strings at offset "@ + text::number_text(
            offset as nat,
        ),
        BencodeError::InvalidUtf8(fault).message() == fault.message(),
        BencodeError::InvalidNumber(number).message() == number.message(),
        SpanError::InvalidUtf8(fault).message() == fault.message(),
        SpanError::InvalidNumber(number).message() == number.message(),
        SpanError::InvalidToken(prefix).message() == "Invalid bencode token: "@ + seq![
            prefix as char,
        ],
        LookupError::Span(extent).message() == extent.message(),
        LookupError::Key(decode).message() == decode.message(),
        (HandshakeError::TooShort { length }).message() == "Handshake buffer too short: "@
            + text::number_text(length as nat) + " bytes"@,
        MessageError::UnknownId(prefix).message() == "Unknown message ID: "@ + text::number_text(
            prefix as nat,
        ),
        (DownloadError::Incomplete { remaining: length }).message() == "Download incomplete: "@
            + text::number_text(length as nat) + " piece(s) could not be downloaded"@,
        fault.error_len matches Some(n) ==> fault.message() == "invalid utf-8 sequence of "@
            + text::number_text(n as nat) + " bytes from index "@ + text::number_text(
            fault.valid_up_to as nat,
        ),
        fault.error_len is None ==> fault.message()
            == "incomplete utf-8 byte sequence from index "@ + text::number_text(
            fault.valid_up_to as nat,
        ),
{
}

/// Of what went wrong with a tracker or a torrent the text names the step, and the cause is the
/// error below it.
pub proof fn law_texts_of_steps(
    e: BencodeError,
    lookup: LookupError,
    reason: Seq<char>,
    other: TorrentError,
)
    ensures
        refusal_message(Refusal::Decode(e)) == "Failed to parse tracker bencode response"@,
        refusal_message(Refusal::NotADict) == "Tracker response is not a dict"@,
        refusal_message(Refusal::Failure(reason)) == "Tracker responded with failure: "@ + reason,
        endpoint_message(BadEndpoint::InvalidUrl(reason)) == reason,
        endpoint_message(BadEndpoint::NoHost) == "No host in UDP tracker URL"@,
        TorrentError::Decode(e).cause_message() == Some(e.message()),
        TorrentError::RawInfo(lookup).cause_message() == Some(lookup.message()),
        !(other is Decode) && !(other is RawInfo) ==> other.cause_message() is None,
{
}

} // verus!
