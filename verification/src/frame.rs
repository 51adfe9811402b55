//! The frames of the wire protocol, and how they are read from bytes.
//!
//! A frame begins with a byte that tells its kind. `+` begins a line of text
//! that ends with a carriage return and a line feed. `$` begins a key and a
//! value, each preceded by its length as four big-endian bytes, with a
//! carriage return and a line feed behind each length and each byte string.

use crate::command::{Command, Response};
use vstd::prelude::*;
use vstd::slice::{slice_subrange, slice_to_vec};

verus! {

/// What `String::from_utf8_lossy` makes of bytes.
pub uninterp spec fn utf8_lossy(bytes: Seq<u8>) -> Seq<char>;

/// The number that four bytes denote, the first byte counting most.
pub open spec fn big_endian_u32(bytes: Seq<u8>) -> u32
    recommends
        bytes.len() == 4,
{
    (bytes[0] as int * 0x100_0000 + bytes[1] as int * 0x1_0000 + bytes[2] as int * 0x100
        + bytes[3] as int) as u32
}

/// `String::from_utf8_lossy` of std, with the result made a `String`: the
/// text that the bytes hold, where they are no UTF-8 with replacement
/// characters in place of what is not.
#[verifier::external_body]
fn lossy_text(line: &[u8]) -> (text: String)
    ensures
        text@ == utf8_lossy(line@),
{
    String::from_utf8_lossy(line).into_owned()
}

/// `Buf::get_u8` of the crate bytes, on a byte slice: the slice's first byte.
/// The crate's function panics on an empty buffer.
#[verifier::external_body]
fn buf_get_u8(rest: &[u8]) -> (value: u8)
    requires
        rest@.len() >= 1,
    ensures
        value == rest@[0],
{
    let mut buf: &[u8] = rest;
    bytes::Buf::get_u8(&mut buf)
}

/// `Buf::get_u32` of the crate bytes, on a byte slice: the number that the
/// slice's first four bytes denote in big-endian order. The crate's function
/// panics on a buffer of fewer than four bytes.
#[verifier::external_body]
fn buf_get_u32(rest: &[u8]) -> (value: u32)
    requires
        rest@.len() >= 4,
    ensures
        value == big_endian_u32(rest@.subrange(0, 4)),
{
    let mut buf: &[u8] = rest;
    bytes::Buf::get_u32(&mut buf)
}

/// A position in a run of bytes, from which reading goes on.
pub struct ByteCursor<'a> {
    data: &'a [u8],
    position: usize,
}

impl<'a> ByteCursor<'a> {
    /// The bytes that the cursor reads.
    pub closed spec fn bytes(&self) -> Seq<u8> {
        self.data@
    }

    /// The position at which the next byte is read.
    pub closed spec fn at(&self) -> int {
        self.position as int
    }

    /// The invariant of the cursor: its position is within the bytes or
    /// just behind them.
    pub closed spec fn wf(&self) -> bool {
        self.position <= self.data@.len() <= usize::MAX
    }

    /// A cursor at the start of `data`.
    pub fn new(data: &'a [u8]) -> (cursor: Self)
        ensures
            cursor.wf(),
            cursor.bytes() == data@,
            cursor.at() == 0,
    {
        let _length: usize = data.len();
        ByteCursor { data, position: 0 }
    }

    /// The position at which the next byte is read.
    pub fn position(&self) -> (position: usize)
        ensures
            position == self.at(),
    {
        self.position
    }

    /// The number of bytes from the position to the end.
    pub fn remaining(&self) -> (count: usize)
        requires
            self.wf(),
        ensures
            count == self.bytes().len() - self.at(),
    {
        self.data.len() - self.position
    }

    /// Whether a byte is left to read.
    pub fn has_remaining(&self) -> (b: bool)
        requires
            self.wf(),
        ensures
            b == (self.at() < self.bytes().len()),
    {
        self.position < self.data.len()
    }

    /// Moves the position forward by `count` bytes.
    pub fn advance(&mut self, count: usize)
        requires
            old(self).wf(),
            old(self).at() + count <= old(self).bytes().len(),
        ensures
            final(self).wf(),
            final(self).bytes() == old(self).bytes(),
            final(self).at() == old(self).at() + count,
    {
        self.position = self.position + count;
    }
}

/// A frame of the wire protocol.
#[derive(Clone, Debug, PartialEq, Eq)]
pub enum Frame {
    /// A line of text.
    Simple(String),
    /// A key and a value.
    KeyValue(Vec<u8>, Vec<u8>),
}

/// A frame as a mathematical value.
pub enum FrameModel {
    Simple(Seq<char>),
    KeyValue(Seq<u8>, Seq<u8>),
}

impl View for Frame {
    type V = FrameModel;

    open spec fn view(&self) -> FrameModel {
        match *self {
            Frame::Simple(text) => FrameModel::Simple(text@),
            Frame::KeyValue(key, value) => FrameModel::KeyValue(key@, value@),
        }
    }
}

/// The outcome of reading a frame: the frame, if one was read, and the
/// position at which reading stopped.
pub struct Parse {
    pub frame: Option<FrameModel>,
    pub position: int,
}

/// Whether a carriage return and a line feed stand at `pos`.
pub open spec fn delimiter_at(bytes: Seq<u8>, pos: int) -> bool {
    0 <= pos && pos + 2 <= bytes.len() && bytes[pos] == 13u8 && bytes[pos + 1] == 10u8
}

/// The first position at or behind `from` at which a carriage return and a
/// line feed stand.
pub open spec fn first_line_end(bytes: Seq<u8>, from: int) -> Option<int>
    decreases bytes.len() - from,
{
    if from < 0 || from + 1 >= bytes.len() {
        None
    } else if bytes[from] == 13u8 && bytes[from + 1] == 10u8 {
        Some(from)
    } else {
        first_line_end(bytes, from + 1)
    }
}

/// A byte string of the announced length with the delimiter behind it, read
/// at `pos`, where the length stands: the byte string, if all of it is
/// there, and the position at which reading stopped.
pub open spec fn counted_at(bytes: Seq<u8>, pos: int) -> (Option<Seq<u8>>, int) {
    if pos + 4 > bytes.len() {
        (None, pos)
    } else if !delimiter_at(bytes, pos + 4) {
        (None, pos + 4)
    } else {
        let length = big_endian_u32(bytes.subrange(pos, pos + 4)) as int;
        let start = pos + 6;
        if start + length > bytes.len() {
            (None, start)
        } else if !delimiter_at(bytes, start + length) {
            (None, start + length)
        } else {
            (Some(bytes.subrange(start, start + length)), start + length + 2)
        }
    }
}

/// What reading a frame at `pos` gives. The byte at `pos` tells the kind;
/// where it is neither `+` nor `$`, or the frame is not all there, no frame
/// is read, and reading stops where it found that out.
pub open spec fn parse_at(bytes: Seq<u8>, pos: int) -> Parse {
    if pos < 0 || pos >= bytes.len() {
        Parse { frame: None, position: pos }
    } else if bytes[pos] == 43u8 {
        match first_line_end(bytes, pos + 1) {
            Some(end) => Parse {
                frame: Some(FrameModel::Simple(utf8_lossy(bytes.subrange(pos + 1, end)))),
                position: end + 2,
            },
            None => Parse { frame: None, position: pos + 1 },
        }
    } else if bytes[pos] == 36u8 {
        let (key, behind_key) = counted_at(bytes, pos + 1);
        match key {
            None => Parse { frame: None, position: behind_key },
            Some(key) => {
                let (value, behind_value) = counted_at(bytes, behind_key);
                match value {
                    None => Parse { frame: None, position: behind_value },
                    Some(value) => Parse {
                        frame: Some(FrameModel::KeyValue(key, value)),
                        position: behind_value,
                    },
                }
            },
        }
    } else {
        Parse { frame: None, position: pos + 1 }
    }
}

/// The view of a frame that may be missing.
pub open spec fn frame_view(frame: Option<Frame>) -> Option<FrameModel> {
    match frame {
        Some(frame) => Some(frame@),
        None => None,
    }
}

impl Frame {
    /// Reads one frame at the cursor and moves the cursor behind it. Where
    /// no frame is read, the cursor stops where that was found out.
    pub fn try_parse(bytes: &mut ByteCursor) -> (r: Option<Frame>)
        requires
            old(bytes).wf(),
        ensures
            final(bytes).wf(),
            final(bytes).bytes() == old(bytes).bytes(),
            frame_view(r) == parse_at(old(bytes).bytes(), old(bytes).at()).frame,
            final(bytes).at() == parse_at(old(bytes).bytes(), old(bytes).at()).position,
    {
        let first_byte = match Self::get_u8(bytes) {
            Some(byte) => byte,
            None => {
                return None;
            },
        };
        if first_byte == 43u8 {
            let start: usize = bytes.position;
            let end: usize = bytes.data.len() - 1;
            let mut i: usize = start;
            while i < end
                invariant
                    start <= i,
                    start == old(bytes).at() + 1,
                    old(bytes).bytes()[old(bytes).at()] == 43u8,
                    end + 1 == bytes.data@.len(),
                    bytes.position == start,
                    bytes.wf(),
                    bytes.bytes() == old(bytes).bytes(),
                    first_line_end(bytes.data@, start as int) == first_line_end(
                        bytes.data@,
                        i as int,
                    ),
                decreases end - i,
            {
                if bytes.data[i] == 13u8 && bytes.data[i + 1] == 10u8 {
                    bytes.position = i + 2;
                    let line = slice_subrange(bytes.data, start, i);
                    return Some(Frame::Simple(lossy_text(line)));
                }
                i += 1;
            }
            None
        } else if first_byte == 36u8 {
            let key_length = match Self::get_u32(bytes) {
                Some(length) => length as usize,
                None => {
                    return None;
                },
            };
            if Self::advance_past_delimiter(bytes).is_none() {
                return None;
            }
            let key = match Self::get_bytes(bytes, key_length) {
                Some(key) => key,
                None => {
                    return None;
                },
            };
            if Self::advance_past_delimiter(bytes).is_none() {
                return None;
            }
            let value_length = match Self::get_u32(bytes) {
                Some(length) => length as usize,
                None => {
                    return None;
                },
            };
            if Self::advance_past_delimiter(bytes).is_none() {
                return None;
            }
            let value = match Self::get_bytes(bytes, value_length) {
                Some(value) => value,
                None => {
                    return None;
                },
            };
            if Self::advance_past_delimiter(bytes).is_none() {
                return None;
            }
            Some(Frame::KeyValue(key, value))
        } else {
            None
        }
    }

    /// Reads one byte, if one is left.
    pub fn get_u8(cursor: &mut ByteCursor) -> (r: Option<u8>)
        requires
            old(cursor).wf(),
        ensures
            final(cursor).wf(),
            final(cursor).bytes() == old(cursor).bytes(),
            r == (if old(cursor).at() < old(cursor).bytes().len() {
                Some(old(cursor).bytes()[old(cursor).at()])
            } else {
                None
            }),
            final(cursor).at() == (if r is Some {
                old(cursor).at() + 1
            } else {
                old(cursor).at()
            }),
    {
        if !cursor.has_remaining() {
            return None;
        }
        let rest = slice_subrange(cursor.data, cursor.position, cursor.data.len());
        let byte = buf_get_u8(rest);
        cursor.advance(1);
        Some(byte)
    }

    /// Reads four bytes as a number in big-endian order, if four are left.
    pub fn get_u32(cursor: &mut ByteCursor) -> (r: Option<u32>)
        requires
            old(cursor).wf(),
        ensures
            final(cursor).wf(),
            final(cursor).bytes() == old(cursor).bytes(),
            r == (if old(cursor).at() + 4 <= old(cursor).bytes().len() {
                Some(
                    big_endian_u32(
                        old(cursor).bytes().subrange(old(cursor).at(), old(cursor).at() + 4),
                    ),
                )
            } else {
                None
            }),
            final(cursor).at() == (if r is Some {
                old(cursor).at() + 4
            } else {
                old(cursor).at()
            }),
    {
        if cursor.remaining() < 4 {
            return None;
        }
        let rest = slice_subrange(cursor.data, cursor.position, cursor.data.len());
        let value = buf_get_u32(rest);
        assert(rest@.subrange(0, 4) =~= cursor.bytes().subrange(cursor.at(), cursor.at() + 4));
        cursor.advance(4);
        Some(value)
    }

    /// Reads `count` bytes, if as many are left.
    pub fn get_bytes(cursor: &mut ByteCursor, count: usize) -> (r: Option<Vec<u8>>)
        requires
            old(cursor).wf(),
        ensures
            final(cursor).wf(),
            final(cursor).bytes() == old(cursor).bytes(),
            match r {
                Some(buffer) => {
                    &&& old(cursor).at() + count <= old(cursor).bytes().len()
                    &&& buffer@ == old(cursor).bytes().subrange(
                        old(cursor).at(),
                        old(cursor).at() + count,
                    )
                    &&& final(cursor).at() == old(cursor).at() + count
                },
                None => {
                    &&& old(cursor).at() + count > old(cursor).bytes().len()
                    &&& final(cursor).at() == old(cursor).at()
                },
            },
    {
        if cursor.remaining() < count {
            return None;
        }
        let buffer = slice_to_vec(
            slice_subrange(cursor.data, cursor.position, cursor.position + count),
        );
        cursor.advance(count);
        Some(buffer)
    }

    /// Moves the cursor behind a carriage return and a line feed, if they
    /// stand at the cursor.
    pub fn advance_past_delimiter(cursor: &mut ByteCursor) -> (r: Option<()>)
        requires
            old(cursor).wf(),
        ensures
            final(cursor).wf(),
            final(cursor).bytes() == old(cursor).bytes(),
            r is Some <==> delimiter_at(old(cursor).bytes(), old(cursor).at()),
            final(cursor).at() == (if r is Some {
                old(cursor).at() + 2
            } else {
                old(cursor).at()
            }),
    {
        if cursor.remaining() < 2 {
            return None;
        }
        let pos: usize = cursor.position;
        if cursor.data[pos] != 13u8 || cursor.data[pos + 1] != 10u8 {
            return None;
        }
        cursor.advance(2);
        Some(())
    }

    /// The frame of a command: `PING` as a line of text, and the key and the
    /// value of a `Put`. A `Get` has no frame.
    pub fn from_cmd(cmd: &Command) -> (r: Option<Frame>)
        ensures
            frame_view(r) == match *cmd {
                Command::Ping => Some(FrameModel::Simple("PING"@)),
                Command::Put((key, value)) => Some(FrameModel::KeyValue(key@, value@)),
                Command::Get(_) => None,
            },
    {
        match cmd {
            Command::Ping => Some(Frame::Simple("PING".to_owned())),
            Command::Put((key, value)) => {
                let key = slice_to_vec(key.as_slice());
                let value = slice_to_vec(value.as_slice());
                Some(Frame::KeyValue(key, value))
            },
            Command::Get(_) => None,
        }
    }

    /// The frame of a response: `PONG` as a line of text. A value has no
    /// frame.
    pub fn from_response(resp: &Response) -> (r: Option<Frame>)
        ensures
            frame_view(r) == match *resp {
                Response::Pong => Some(FrameModel::Simple("PONG"@)),
                Response::Value(_) => None,
            },
    {
        match resp {
            Response::Pong => Some(Frame::Simple("PONG".to_owned())),
            Response::Value(_) => None,
        }
    }
}

} // verus!
