//! The line reader: splits a raw byte buffer into its ordered sequence of
//! text lines.
//!
//! A line ends at a line feed byte and excludes it; a carriage return
//! directly before the line feed is removed with it. Content after the last
//! line feed, when there is any, is a final line of its own, kept verbatim.
//! An empty buffer has no lines. A line whose bytes are not valid UTF-8 is
//! a [`ReadError`], fatal for the whole read.

use vstd::prelude::*;

verus! {

use vstd::utf8::valid_utf8;
use vstd::utf8::decode_utf8;

/// Error of the line reader: the buffer holds a line whose bytes cannot be
/// decoded as UTF-8 text.
#[derive(Clone, Copy, PartialEq, Eq, Structural, Debug)]
pub struct ReadError;

/// Position of the first line feed byte in `bytes`, or `bytes.len()` when
/// there is none.
pub open spec fn first_line_break(bytes: Seq<u8>) -> int
    decreases bytes.len(),
{
    if bytes.len() == 0 {
        0
    } else if bytes[0] == 10u8 {
        0
    } else {
        1 + first_line_break(bytes.drop_first())
    }
}

proof fn lemma_first_line_break(bytes: Seq<u8>)
    ensures
        0 <= first_line_break(bytes) <= bytes.len(),
        first_line_break(bytes) < bytes.len() ==> bytes[first_line_break(bytes)] == 10u8,
        forall|k: int| 0 <= k < first_line_break(bytes) ==> bytes[k] != 10u8,
    decreases bytes.len(),
{
    if bytes.len() > 0 && bytes[0] != 10u8 {
        lemma_first_line_break(bytes.drop_first());
        assert forall|k: int| 0 <= k < first_line_break(bytes) implies bytes[k] != 10u8 by {
            if k > 0 {
                assert(bytes.drop_first()[k - 1] == bytes[k]);
            }
        }
    }
}

proof fn lemma_first_line_break_is(bytes: Seq<u8>, i: int)
    requires
        0 <= i <= bytes.len(),
        i < bytes.len() ==> bytes[i] == 10u8,
        forall|k: int| 0 <= k < i ==> bytes[k] != 10u8,
        i == bytes.len() ==> forall|k: int| 0 <= k < bytes.len() ==> bytes[k] != 10u8,
    ensures
        first_line_break(bytes) == i,
    decreases bytes.len(),
{
    if bytes.len() == 0 {
    } else if bytes[0] == 10u8 {
        assert(i == 0);
    } else {
        assert(i >= 1);
        lemma_first_line_break_is(bytes.drop_first(), i - 1);
    }
}

/// A terminated line with a final carriage return removed: the byte pair
/// `\r\n` ends a line together.
pub open spec fn strip_carriage_return(line: Seq<u8>) -> Seq<u8> {
    if line.len() > 0 && line[line.len() - 1] == 13u8 {
        line.drop_last()
    } else {
        line
    }
}

/// The byte lines of a buffer: one line per line feed, without the
/// terminator (and without a carriage return directly before it), plus a
/// final unterminated line when bytes remain after the last line feed.
pub open spec fn split_lines(bytes: Seq<u8>) -> Seq<Seq<u8>>
    decreases bytes.len(),
    via split_lines_decreases
{
    if bytes.len() == 0 {
        Seq::empty()
    } else {
        let i = first_line_break(bytes);
        if i < bytes.len() {
            seq![strip_carriage_return(bytes.take(i))] + split_lines(bytes.skip(i + 1))
        } else {
            seq![bytes]
        }
    }
}

#[via_fn]
proof fn split_lines_decreases(bytes: Seq<u8>) {
    lemma_first_line_break(bytes);
}

proof fn lemma_split_at_break(line: Seq<u8>, rest: Seq<u8>)
    requires
        forall|k: int| 0 <= k < line.len() ==> line[k] != 10u8,
    ensures
        split_lines(line + seq![10u8] + rest) == seq![strip_carriage_return(line)] + split_lines(
            rest,
        ),
{
    let s = line + seq![10u8] + rest;
    assert(s.len() == line.len() + 1 + rest.len());
    assert forall|k: int| 0 <= k < line.len() implies s[k] != 10u8 by {
        assert(s[k] == line[k]);
    }
    lemma_first_line_break_is(s, line.len() as int);
    assert(s.take(line.len() as int) =~= line);
    assert(s.skip(line.len() as int + 1) =~= rest);
}

proof fn lemma_split_unterminated(line: Seq<u8>)
    requires
        line.len() > 0,
        forall|k: int| 0 <= k < line.len() ==> line[k] != 10u8,
    ensures
        split_lines(line) == seq![line],
{
    lemma_first_line_break_is(line, line.len() as int);
}

/// Whether every line of the buffer is valid UTF-8 text.
pub open spec fn lines_decodable(bytes: Seq<u8>) -> bool {
    forall|i: int|
        0 <= i < split_lines(bytes).len() ==> valid_utf8(#[trigger] split_lines(bytes)[i])
}

/// The text lines of the buffer, assuming every line decodes.
pub open spec fn decoded_lines(bytes: Seq<u8>) -> Seq<Seq<char>> {
    split_lines(bytes).map_values(|line: Seq<u8>| decode_utf8(line))
}

/// Relies on `String::from_utf8`: it succeeds exactly when the bytes are a
/// valid UTF-8 encoding, and then returns the string of the characters
/// those bytes encode.
#[verifier::external_body]
fn decode_line(bytes: Vec<u8>) -> (r: Option<String>)
    ensures
        r is Some <==> valid_utf8(bytes@),
        r matches Some(s) ==> s@ == decode_utf8(bytes@),
{
    String::from_utf8(bytes).ok()
}

/// Splits the buffer into its sequence of text lines, as [`split_lines`]
/// and [`decoded_lines`] describe; fails exactly when some line is not
/// valid UTF-8.
pub fn read_lines(buffer: &Vec<u8>) -> (r: Result<Vec<String>, ReadError>)
    ensures
        r is Ok <==> lines_decodable(buffer@),
        r matches Ok(lines) ==> lines.deep_view() == decoded_lines(buffer@),
{
    let mut lines: Vec<String> = Vec::new();
    let mut current: Vec<u8> = Vec::new();
    let ghost mut done: Seq<Seq<u8>> = Seq::empty();
    let mut pos: usize = 0;
    proof {
        assert(current@ + buffer@.skip(0) =~= buffer@);
        assert(done + split_lines(buffer@) =~= split_lines(buffer@));
    }
    while pos < buffer.len()
        invariant
            pos <= buffer@.len(),
            forall|k: int| 0 <= k < current@.len() ==> current@[k] != 10u8,
            split_lines(buffer@) == done + split_lines(current@ + buffer@.skip(pos as int)),
            lines@.len() == done.len(),
            forall|i: int|
                0 <= i < done.len() ==> valid_utf8(#[trigger] done[i]) && lines@[i]@
                    == decode_utf8(done[i]),
        decreases buffer@.len() - pos,
    {
        let byte = buffer[pos];
        pos = pos + 1;
        if byte == 10u8 {
            let ghost raw = current@;
            let mut line = current;
            current = Vec::new();
            if line.len() > 0 && line[line.len() - 1] == 13u8 {
                line.pop();
            }
            proof {
                assert(line@ == strip_carriage_return(raw));
                assert(raw + buffer@.skip(pos - 1) =~= (raw + seq![10u8]) + buffer@.skip(
                    pos as int,
                ));
                assert((raw + seq![10u8]) + buffer@.skip(pos as int) =~= raw + seq![10u8]
                    + buffer@.skip(pos as int));
                lemma_split_at_break(raw, buffer@.skip(pos as int));
            }
            match decode_line(line) {
                Some(text) => {
                    lines.push(text);
                    proof {
                        done = done.push(strip_carriage_return(raw));
                        assert(split_lines(buffer@) =~= done + split_lines(
                            current@ + buffer@.skip(pos as int),
                        )) by {
                            assert(current@ + buffer@.skip(pos as int) =~= buffer@.skip(
                                pos as int,
                            ));
                        }
                    }
                },
                None => {
                    proof {
                        assert(split_lines(buffer@)[done.len() as int] == strip_carriage_return(
                            raw,
                        ));
                        assert(!lines_decodable(buffer@));
                    }
                    return Err(ReadError);
                },
            }
        } else {
            let ghost prev = current@;
            current.push(byte);
            proof {
                assert(current@ + buffer@.skip(pos as int) =~= prev + buffer@.skip(pos - 1));
            }
        }
    }
    proof {
        assert(current@ + buffer@.skip(pos as int) =~= current@);
    }
    if current.len() > 0 {
        let ghost tail = current@;
        proof {
            lemma_split_unterminated(tail);
            assert(split_lines(buffer@) =~= done + seq![tail]);
        }
        match decode_line(current) {
            Some(text) => {
                lines.push(text);
                proof {
                    done = done.push(tail);
                    assert(done =~= split_lines(buffer@));
                }
            },
            None => {
                proof {
                    assert(split_lines(buffer@)[done.len() as int] == tail);
                    assert(!lines_decodable(buffer@));
                }
                return Err(ReadError);
            },
        }
    } else {
        proof {
            assert(split_lines(current@) =~= Seq::<Seq<u8>>::empty());
            assert(done =~= split_lines(buffer@));
        }
    }
    proof {
        assert(lines.deep_view() =~= decoded_lines(buffer@));
    }
    Ok(lines)
}

} // verus!
