//! The text format of a saved network:
//!
//! ```text
//! inputs hidden_layers hidden outputs
//! weight1 weight2 ... weightN
//! ```
//!
//! This module handles the first line and the word structure of the second;
//! the weights themselves are floating-point text read and written by the
//! caller.

use vstd::prelude::*;
use vstd::string::StringSliceAdditionalSpecFns;
use crate::decimal::{
    ascii_chars, decimal_chars, decimal_digits, numeral_value, parse_numeral, push_decimal,
    NumeralError, lemma_decimal_digits_are_digits, lemma_decimal_roundtrip,
};
use crate::error::NeuralNetworkError;
use crate::tokens::{lemma_scan_shift, lemma_scan_word_run, ranges_view, scan_words, shift_ranges, whitespace_len, word_ranges, words};
use crate::topology::{refusal, NetworkShape, ShapeModel};

verus! {

/// The first line of a saved network, as bytes: the four counts in
/// decimal, separated by single spaces, ended by a newline.
pub open spec fn header_bytes(m: ShapeModel) -> Seq<u8> {
    decimal_digits(m.inputs) + seq![32u8] + decimal_digits(m.hidden_layers) + seq![32u8]
        + decimal_digits(m.hidden) + seq![32u8] + decimal_digits(m.outputs) + seq![10u8]
}

/// What reading a first line comes to.
pub enum HeaderReading {
    /// The line holds fewer than four words; it holds this many.
    WordCount(nat),
    /// A word is not a `usize` numeral.
    BadNumeral(NumeralError),
    /// The counts are refused by construction.
    Refused(ShapeModel),
    /// The counts are accepted but the network would not fit in memory.
    TooLarge(ShapeModel),
    /// The counts describe this shape.
    Accepted(ShapeModel),
}

/// The value of word `w` of `b`.
pub open spec fn word_value(b: Seq<u8>, w: (int, int)) -> Result<nat, NumeralError> {
    numeral_value(b.subrange(w.0, w.1))
}

/// Reads the first line `b` of a saved network: the word count first, then
/// the first four words as numerals, left to right, then the checks of
/// construction. Words after the fourth are weights (files written on a
/// single line).
pub open spec fn read_header(b: Seq<u8>) -> HeaderReading {
    let w = words(b);
    if w.len() < 4 {
        HeaderReading::WordCount(w.len())
    } else {
        match word_value(b, w[0]) {
            Err(e) => HeaderReading::BadNumeral(e),
            Ok(i) => match word_value(b, w[1]) {
                Err(e) => HeaderReading::BadNumeral(e),
                Ok(hl) => match word_value(b, w[2]) {
                    Err(e) => HeaderReading::BadNumeral(e),
                    Ok(h) => match word_value(b, w[3]) {
                        Err(e) => HeaderReading::BadNumeral(e),
                        Ok(o) => {
                            let m = ShapeModel { inputs: i, hidden_layers: hl, hidden: h, outputs: o };
                            if !m.valid_params() {
                                HeaderReading::Refused(m)
                            } else if !m.fits() {
                                HeaderReading::TooLarge(m)
                            } else {
                                HeaderReading::Accepted(m)
                            }
                        },
                    },
                },
            },
        }
    }
}

/// The text that describes a numeral error.
pub open spec fn numeral_error_text(e: NumeralError) -> Seq<char> {
    match e {
        NumeralError::Empty => "cannot parse integer from empty string"@,
        NumeralError::InvalidDigit => "invalid digit found in string"@,
        NumeralError::Overflow => "number too large to fit in target type"@,
    }
}

fn numeral_error_message(e: NumeralError) -> (s: String)
    ensures
        s@ == "Failed to parse integer: "@ + numeral_error_text(e),
{
    let mut s = String::from_str("Failed to parse integer: ");
    match e {
        NumeralError::Empty => s.append("cannot parse integer from empty string"),
        NumeralError::InvalidDigit => s.append("invalid digit found in string"),
        NumeralError::Overflow => s.append("number too large to fit in target type"),
    }
    s
}

/// The first line of the saved form of a network of shape `shape`.
pub fn header_line(shape: &NetworkShape) -> (s: String)
    ensures
        s@ == ascii_chars(header_bytes(shape@)),
{
    let mut s = String::new();
    push_decimal(&mut s, shape.inputs());
    s.append(" ");
    push_decimal(&mut s, shape.hidden_layers());
    s.append(" ");
    push_decimal(&mut s, shape.hidden());
    s.append(" ");
    push_decimal(&mut s, shape.outputs());
    s.append("\n");
    proof {
        reveal_strlit(" ");
        reveal_strlit("\n");
        let m = shape@;
        assert(ascii_chars(header_bytes(m)) =~= decimal_chars(m.inputs) + " "@ + decimal_chars(
            m.hidden_layers,
        ) + " "@ + decimal_chars(m.hidden) + " "@ + decimal_chars(m.outputs) + "\n"@);
    }
    s
}

fn word_numeral(b: &[u8], w: (usize, usize)) -> (r: Result<usize, NeuralNetworkError>)
    requires
        w.0 <= w.1 <= b@.len(),
    ensures
        match word_value(b@, (w.0 as int, w.1 as int)) {
            Ok(v) => r == Ok::<usize, NeuralNetworkError>(v as usize),
            Err(e) => (r matches Err(NeuralNetworkError::Parse(msg)) && msg@ == "Failed to parse integer: "@
                + numeral_error_text(e)),
        },
{
    match parse_numeral(b, w.0, w.1) {
        Ok(v) => Ok(v),
        Err(e) => Err(NeuralNetworkError::Parse(numeral_error_message(e))),
    }
}

/// Reads the first line of a saved network into its shape, and gives the
/// byte ranges of the words that follow the four counts on the same line
/// (the weights of a network saved on one line; none when the weights are
/// on the next line).
pub fn parse_header(line: &str) -> (r: Result<(NetworkShape, Vec<(usize, usize)>), NeuralNetworkError>)
    ensures
        match read_header(line.spec_bytes()) {
            HeaderReading::WordCount(n) => (r matches Err(NeuralNetworkError::Parse(msg)) && msg@
                == "Expected 4 numbers in first line, got "@ + decimal_chars(n)),
            HeaderReading::BadNumeral(e) => (r matches Err(NeuralNetworkError::Parse(msg)) && msg@
                == "Failed to parse integer: "@ + numeral_error_text(e)),
            HeaderReading::Refused(m) => (r matches Err(
                NeuralNetworkError::InvalidParameter { param, reason },
            ) && refusal(m, param, reason)),
            HeaderReading::TooLarge(_) => (r matches Err(NeuralNetworkError::Parse(msg)) && msg@
                == "Network does not fit in memory"@),
            HeaderReading::Accepted(m) => (r matches Ok((s, rest)) && s@ == m && ranges_view(rest@)
                == words(line.spec_bytes()).skip(4)),
        },
        r matches Ok((_, rest)) ==> forall|i: int|
            #![trigger rest@[i]]
            0 <= i < rest@.len() ==> rest@[i].0 < rest@[i].1 && rest@[i].1 <= line.spec_bytes().len(),
{
    let w = word_ranges(line);
    let b = line.as_bytes();
    let n = w.len();
    if n < 4 {
        let mut msg = String::from_str("Expected 4 numbers in first line, got ");
        push_decimal(&mut msg, n);
        return Err(NeuralNetworkError::Parse(msg));
    }
    proof {
        assert(ranges_view_at(w@, 0) && ranges_view_at(w@, 1) && ranges_view_at(w@, 2)
            && ranges_view_at(w@, 3));
    }
    let inputs = word_numeral(b, w[0])?;
    let hidden_layers = word_numeral(b, w[1])?;
    let hidden = word_numeral(b, w[2])?;
    let outputs = word_numeral(b, w[3])?;
    if !NetworkShape::can_allocate(inputs, hidden_layers, hidden, outputs) {
        return Err(NeuralNetworkError::Parse(String::from_str("Network does not fit in memory")));
    }
    let shape = NetworkShape::new(inputs, hidden_layers, hidden, outputs)?;
    let mut rest: Vec<(usize, usize)> = Vec::new();
    let mut k: usize = 4;
    while k < n
        invariant
            4 <= k <= n,
            n == w@.len(),
            ranges_view(w@) == words(line.spec_bytes()),
            forall|i: int| #![trigger w@[i]] 0 <= i < w@.len() ==> w@[i].0 < w@[i].1 && w@[i].1 <= line.spec_bytes().len(),
            ranges_view(rest@) == ranges_view(w@).subrange(4, k as int),
            forall|i: int| #![trigger rest@[i]] 0 <= i < rest@.len() ==> rest@[i].0 < rest@[i].1 && rest@[i].1 <= line.spec_bytes().len(),
        decreases n - k,
    {
        let ghost before = ranges_view(rest@);
        rest.push(w[k]);
        proof {
            assert(ranges_view(rest@) =~= before.push(ranges_view(w@)[k as int]));
            assert(ranges_view(w@).subrange(4, k + 1) =~= ranges_view(w@).subrange(4, k as int).push(ranges_view(w@)[k as int]));
            assert forall|i: int| #![trigger rest@[i]] 0 <= i < rest@.len() implies rest@[i].0 < rest@[i].1 && rest@[i].1 <= line.spec_bytes().len() by {
                if i == rest@.len() - 1 {
                    assert(rest@[i] == w@[k as int]);
                }
            }
        }
        k = k + 1;
    }
    proof {
        assert(ranges_view(w@).subrange(4, n as int) =~= words(line.spec_bytes()).skip(4));
    }
    Ok((shape, rest))
}

spec fn ranges_view_at(r: Seq<(usize, usize)>, k: int) -> bool {
    crate::tokens::ranges_view(r)[k] == (r[k].0 as int, r[k].1 as int)
}

/// The check that the second line held one weight per weight of the shape.
pub fn check_weight_count(shape: &NetworkShape, count: usize) -> (r: Result<(), NeuralNetworkError>)
    ensures
        count == shape@.total_weights() ==> r is Ok,
        count != shape@.total_weights() ==> (r matches Err(NeuralNetworkError::Parse(msg)) && msg@
            == "Expected "@ + decimal_chars(shape@.total_weights() as nat) + " weights, got "@
            + decimal_chars(count as nat)),
{
    let total = shape.total_weights();
    if count != total {
        let mut msg = String::from_str("Expected ");
        push_decimal(&mut msg, total);
        msg.append(" weights, got ");
        push_decimal(&mut msg, count);
        return Err(NeuralNetworkError::Parse(msg));
    }
    Ok(())
}

/// Writing a shape's first line and reading it back gives the same shape;
/// the line is ASCII, so its UTF-8 bytes are the bytes that were described.
pub proof fn lemma_header_roundtrip(m: ShapeModel)
    requires
        m.valid(),
        m.inputs <= usize::MAX,
        m.hidden_layers <= usize::MAX,
        m.hidden <= usize::MAX,
        m.outputs <= usize::MAX,
    ensures
        read_header(header_bytes(m)) == HeaderReading::Accepted(m),
        words(header_bytes(m)).len() == 4,
        vstd::utf8::encode_utf8(ascii_chars(header_bytes(m))) == header_bytes(m),
{
    let d1 = decimal_digits(m.inputs);
    let d2 = decimal_digits(m.hidden_layers);
    let d3 = decimal_digits(m.hidden);
    let d4 = decimal_digits(m.outputs);
    lemma_decimal_digits_are_digits(m.inputs);
    lemma_decimal_digits_are_digits(m.hidden_layers);
    lemma_decimal_digits_are_digits(m.hidden);
    lemma_decimal_digits_are_digits(m.outputs);
    lemma_decimal_roundtrip(m.inputs);
    lemma_decimal_roundtrip(m.hidden_layers);
    lemma_decimal_roundtrip(m.hidden);
    lemma_decimal_roundtrip(m.outputs);
    let b = header_bytes(m);
    let a = d1.len() as int;
    let e = a + 1 + d2.len();
    let c = e + 1 + d3.len();
    let d = c + 1 + d4.len();
    assert(b.len() == d + 1);
    assert(b.subrange(0, a) =~= d1);
    assert(b.subrange(a + 1, e) =~= d2);
    assert(b.subrange(e + 1, c) =~= d3);
    assert(b.subrange(c + 1, d) =~= d4);
    assert(b[a] == 32 && b[e] == 32 && b[c] == 32 && b[d] == 10);
    assert forall|k: int| 0 <= k < a implies #[trigger] whitespace_len(b, k) == 0 by {
        assert(b[k] == d1[k]);
    }
    assert forall|k: int| a + 1 <= k < e implies #[trigger] whitespace_len(b, k) == 0 by {
        assert(b[k] == d2[k - a - 1]);
    }
    assert forall|k: int| e + 1 <= k < c implies #[trigger] whitespace_len(b, k) == 0 by {
        assert(b[k] == d3[k - e - 1]);
    }
    assert forall|k: int| c + 1 <= k < d implies #[trigger] whitespace_len(b, k) == 0 by {
        assert(b[k] == d4[k - c - 1]);
    }
    lemma_scan_word_run(b, 0, a, None);
    lemma_scan_word_run(b, a + 1, e, None);
    lemma_scan_word_run(b, e + 1, c, None);
    lemma_scan_word_run(b, c + 1, d, None);
    assert(whitespace_len(b, a) == 1 && whitespace_len(b, e) == 1 && whitespace_len(b, c) == 1
        && whitespace_len(b, d) == 1);
    assert(scan_words(b, d + 1, None) =~= Seq::<(int, int)>::empty());
    assert(scan_words(b, d, Some(c + 1)) =~= seq![(c + 1, d)]);
    assert(scan_words(b, c, Some(e + 1)) =~= seq![(e + 1, c), (c + 1, d)]);
    assert(scan_words(b, e, Some(a + 1)) =~= seq![(a + 1, e), (e + 1, c), (c + 1, d)]);
    assert(scan_words(b, a, Some(0)) =~= seq![(0, a), (a + 1, e), (e + 1, c), (c + 1, d)]);
    assert(words(b) =~= seq![(0, a), (a + 1, e), (e + 1, c), (c + 1, d)]);
    let cs = ascii_chars(b);
    assert(vstd::utf8::is_ascii_chars(cs)) by {
        assert forall|k: int| 0 <= k < cs.len() implies '\0' <= #[trigger] cs[k] <= '\u{7f}' by {
            assert(cs[k] == b[k] as char);
            if k < a {
                assert(b[k] == d1[k]);
            } else if a < k < e {
                assert(b[k] == d2[k - a - 1]);
            } else if e < k < c {
                assert(b[k] == d3[k - e - 1]);
            } else if c < k < d {
                assert(b[k] == d4[k - c - 1]);
            }
        }
    }
    vstd::utf8::is_ascii_chars_encode_utf8(cs);
    assert(vstd::utf8::encode_utf8(cs) =~= b);
}

/// The second line of a saved network, as characters: the words separated
/// by single spaces and ended by a newline.
pub open spec fn spaced_line(ws: Seq<Seq<char>>) -> Seq<char>
    decreases ws.len(),
{
    if ws.len() == 0 {
        seq!['\n']
    } else if ws.len() == 1 {
        ws[0].push('\n')
    } else {
        ws[0] + seq![' '] + spaced_line(ws.drop_first())
    }
}

/// Where word `i` starts in `spaced_line(ws)`: after every earlier word and
/// one separator character behind each.
pub open spec fn word_offset(ws: Seq<Seq<char>>, i: int) -> int
    decreases i,
{
    if i <= 0 {
        0
    } else {
        word_offset(ws, i - 1) + ws[i - 1].len() + 1
    }
}

proof fn lemma_word_offset_drop_first(ws: Seq<Seq<char>>, i: int)
    requires
        ws.len() >= 1,
        0 <= i < ws.len(),
    ensures
        word_offset(ws, i + 1) == ws[0].len() + 1 + word_offset(ws.drop_first(), i),
    decreases i,
{
    let rest = ws.drop_first();
    if i > 0 {
        lemma_word_offset_drop_first(ws, i - 1);
        assert(rest[i - 1] == ws[i]);
        assert(word_offset(ws, i + 1) == word_offset(ws, i) + ws[i].len() + 1);
        assert(word_offset(rest, i) == word_offset(rest, i - 1) + rest[i - 1].len() + 1);
    } else {
        assert(word_offset(ws, 0) == 0);
        assert(word_offset(rest, 0) == 0);
        assert(word_offset(ws, 1) == word_offset(ws, 0) + ws[0].len() + 1);
    }
}

/// The layout of a written weights line: word `i` stands at
/// `word_offset(ws, i)`, followed by a single space, except the last word,
/// which is followed by the newline that ends the line; nothing else is in
/// the line. An empty list gives just the newline.
pub proof fn lemma_spaced_line_layout(ws: Seq<Seq<char>>)
    ensures
        ws.len() == 0 ==> spaced_line(ws) == seq!['\n'],
        ws.len() > 0 ==> spaced_line(ws).len() == word_offset(ws, ws.len() as int),
        forall|i: int|
            0 <= i < ws.len() ==> {
                let o = #[trigger] word_offset(ws, i);
                &&& 0 <= o
                &&& o + ws[i].len() < spaced_line(ws).len()
                &&& spaced_line(ws).subrange(o, o + ws[i].len()) == ws[i]
                &&& spaced_line(ws)[o + ws[i].len()] == (if i + 1 < ws.len() {
                    ' '
                } else {
                    '\n'
                })
            },
    decreases ws.len(),
{
    let line = spaced_line(ws);
    if ws.len() == 1 {
        assert(line.subrange(0, ws[0].len() as int) =~= ws[0]);
        assert forall|i: int| 0 <= i < ws.len() implies {
            let o = #[trigger] word_offset(ws, i);
            &&& 0 <= o
            &&& o + ws[i].len() < line.len()
            &&& line.subrange(o, o + ws[i].len()) == ws[i]
            &&& line[o + ws[i].len()] == (if i + 1 < ws.len() {
                ' '
            } else {
                '\n'
            })
        } by {
            assert(i == 0);
            assert(word_offset(ws, 0) == 0);
        }
        assert(word_offset(ws, 1) == word_offset(ws, 0) + ws[0].len() + 1);
    } else if ws.len() >= 2 {
        let rest = ws.drop_first();
        let n0 = ws[0].len() as int;
        let tail = spaced_line(rest);
        lemma_spaced_line_layout(rest);
        assert(line == ws[0] + seq![' '] + tail);
        assert forall|i: int| 0 <= i < ws.len() implies {
            let o = #[trigger] word_offset(ws, i);
            &&& 0 <= o
            &&& o + ws[i].len() < line.len()
            &&& line.subrange(o, o + ws[i].len()) == ws[i]
            &&& line[o + ws[i].len()] == (if i + 1 < ws.len() {
                ' '
            } else {
                '\n'
            })
        } by {
            if i == 0 {
                assert(word_offset(ws, 0) == 0);
                assert(line.subrange(0, n0) =~= ws[0]);
            } else {
                lemma_word_offset_drop_first(ws, i - 1);
                let o2 = word_offset(rest, i - 1);
                assert(rest[i - 1] == ws[i]);
                assert(0 <= o2 && o2 + rest[i - 1].len() < tail.len());
                assert(tail.subrange(o2, o2 + rest[i - 1].len()) == rest[i - 1]);
                assert(line.subrange(n0 + 1 + o2, n0 + 1 + o2 + ws[i].len()) =~= tail.subrange(
                    o2,
                    o2 + ws[i].len(),
                ));
                assert(line[n0 + 1 + o2 + ws[i].len()] == tail[o2 + ws[i].len()]);
            }
        }
        lemma_word_offset_drop_first(ws, ws.len() - 1);
    }
}

/// A written weights line holds exactly one newline, its last character,
/// when no word holds one.
pub proof fn lemma_spaced_line_one_newline(ws: Seq<Seq<char>>)
    requires
        forall|i: int, k: int| 0 <= i < ws.len() && 0 <= k < ws[i].len() ==> #[trigger] ws[i][k]
            != '\n',
    ensures
        spaced_line(ws).len() >= 1,
        spaced_line(ws).last() == '\n',
        forall|k: int| 0 <= k < spaced_line(ws).len() - 1 ==> #[trigger] spaced_line(ws)[k] != '\n',
    decreases ws.len(),
{
    let line = spaced_line(ws);
    if ws.len() == 1 {
        assert forall|k: int| 0 <= k < line.len() - 1 implies #[trigger] line[k] != '\n' by {
            assert(line[k] == ws[0][k]);
        }
    } else if ws.len() >= 2 {
        let rest = ws.drop_first();
        assert forall|i: int, k: int| 0 <= i < rest.len() && 0 <= k < rest[i].len() implies #[trigger] rest[i][k]
            != '\n' by {
            assert(rest[i] == ws[i + 1]);
            assert(ws[i + 1][k] != '\n');
        }
        lemma_spaced_line_one_newline(rest);
        let tail = spaced_line(rest);
        let n0 = ws[0].len() as int;
        assert(line == ws[0] + seq![' '] + tail);
        assert forall|k: int| 0 <= k < line.len() - 1 implies #[trigger] line[k] != '\n' by {
            if k < n0 {
                assert(line[k] == ws[0][k]);
            } else if k > n0 {
                assert(line[k] == tail[k - n0 - 1]);
            }
        }
    }
}

/// What remains of `spaced_line(ws)` once the first `i` words (and the
/// spaces between them) are written.
spec fn spaced_rest(ws: Seq<Seq<char>>, i: int) -> Seq<char> {
    if i == 0 || i >= ws.len() {
        if i == 0 { spaced_line(ws) } else { seq!['\n'] }
    } else {
        seq![' '] + spaced_line(ws.skip(i))
    }
}

/// The views of a list of strings.
pub open spec fn string_views(v: Seq<String>) -> Seq<Seq<char>> {
    v.map_values(|w: String| w@)
}

/// The weights line of a saved network from the text of each weight.
pub fn weights_line(words: &Vec<String>) -> (s: String)
    ensures
        s@ == spaced_line(string_views(words@)),
{
    let ghost ws = string_views(words@);
    let mut s = String::new();
    let n = words.len();
    let mut i: usize = 0;
    proof {
        reveal_strlit(" ");
        reveal_strlit("\n");
        assert(s@ + spaced_rest(ws, 0) =~= spaced_line(ws));
    }
    while i < n
        invariant
            n == words@.len(),
            ws == string_views(words@),
            i <= n,
            s@ + spaced_rest(ws, i as int) == spaced_line(ws),
            " "@ == seq![' '],
        decreases n - i,
    {
        let ghost before = s@;
        let ghost rest = ws.skip(i as int);
        assert(rest.len() >= 1);
        assert(rest[0] == words@[i as int]@);
        assert(rest.drop_first() =~= ws.skip(i + 1));
        if i > 0 {
            s.append(" ");
        }
        s.append(words[i].as_str());
        proof {
            if i + 1 == n {
                assert(rest =~= seq![ws[i as int]]);
                assert(spaced_rest(ws, i + 1) == seq!['\n']);
            } else {
                assert(spaced_rest(ws, i + 1) == seq![' '] + spaced_line(ws.skip(i + 1)));
            }
            if i == 0 {
                assert(ws.skip(0) =~= ws);
            }
            assert(s@ + spaced_rest(ws, i + 1) =~= spaced_line(ws));
        }
        i = i + 1;
    }
    s.append("\n");
    proof {
        assert(s@ =~= spaced_line(ws));
    }
    s
}

/// A word of saved text: printable ASCII characters, no space.
pub open spec fn is_plain_word(w: Seq<char>) -> bool {
    w.len() > 0 && forall|k: int| 0 <= k < w.len() ==> '!' <= #[trigger] w[k] <= '~'
}

/// ASCII characters as bytes.
pub open spec fn ascii_bytes(w: Seq<char>) -> Seq<u8> {
    w.map_values(|c: char| c as u8)
}

/// The bytes of `spaced_line(ws)`, built the same way.
spec fn spaced_bytes(ws: Seq<Seq<char>>) -> Seq<u8>
    decreases ws.len(),
{
    if ws.len() == 0 {
        seq![10u8]
    } else if ws.len() == 1 {
        ascii_bytes(ws[0]).push(10u8)
    } else {
        ascii_bytes(ws[0]) + seq![32u8] + spaced_bytes(ws.drop_first())
    }
}

proof fn lemma_spaced_bytes(ws: Seq<Seq<char>>)
    requires
        forall|i: int| 0 <= i < ws.len() ==> is_plain_word(#[trigger] ws[i]),
    ensures
        vstd::utf8::is_ascii_chars(spaced_line(ws)),
        ascii_bytes(spaced_line(ws)) == spaced_bytes(ws),
    decreases ws.len(),
{
    if ws.len() >= 2 {
        assert forall|i: int| 0 <= i < ws.drop_first().len() implies is_plain_word(
            #[trigger] ws.drop_first()[i],
        ) by {
            assert(ws.drop_first()[i] == ws[i + 1]);
        }
        lemma_spaced_bytes(ws.drop_first());
    }
    let line = spaced_line(ws);
    if ws.len() >= 1 {
        assert(is_plain_word(ws[0]));
    }
    assert forall|k: int| 0 <= k < line.len() implies '\0' <= #[trigger] line[k] <= '\u{7f}' by {
        if ws.len() >= 1 && k < ws[0].len() {
            assert(line[k] == ws[0][k]);
        } else if ws.len() >= 2 && k > ws[0].len() {
            assert(line[k] == spaced_line(ws.drop_first())[k - ws[0].len() - 1]);
        }
    }
    if ws.len() == 0 {
        assert(ascii_bytes(line) =~= spaced_bytes(ws));
    } else if ws.len() == 1 {
        assert(ascii_bytes(line) =~= spaced_bytes(ws));
    } else {
        assert(ascii_bytes(line) =~= ascii_bytes(ws[0]) + seq![32u8] + ascii_bytes(
            spaced_line(ws.drop_first()),
        ));
    }
}

proof fn lemma_spaced_bytes_words(ws: Seq<Seq<char>>)
    requires
        forall|i: int| 0 <= i < ws.len() ==> is_plain_word(#[trigger] ws[i]),
    ensures
        words(spaced_bytes(ws)).len() == ws.len(),
        forall|i: int|
            0 <= i < ws.len() ==> {
                let w = #[trigger] words(spaced_bytes(ws))[i];
                spaced_bytes(ws).subrange(w.0, w.1) == ascii_bytes(ws[i])
            },
    decreases ws.len(),
{
    let b = spaced_bytes(ws);
    if ws.len() == 0 {
        assert(whitespace_len(b, 0) == 1);
        assert(scan_words(b, 1, None) =~= Seq::<(int, int)>::empty());
        assert(words(b) =~= Seq::<(int, int)>::empty());
    } else {
        let w0 = ascii_bytes(ws[0]);
        let n0 = w0.len() as int;
        assert(is_plain_word(ws[0]));
        assert forall|k: int| 0 <= k < n0 implies #[trigger] whitespace_len(b, k) == 0 by {
            assert(b[k] == w0[k]);
            assert('!' <= ws[0][k] <= '~');
            assert(33 <= w0[k] <= 126);
        }
        lemma_scan_word_run(b, 0, n0, None);
        assert(b.subrange(0, n0) =~= w0);
        if ws.len() == 1 {
            assert(b[n0] == 10);
            assert(whitespace_len(b, n0) == 1);
            assert(scan_words(b, n0 + 1, None) =~= Seq::<(int, int)>::empty());
            assert(words(b) =~= seq![(0, n0)]);
        } else {
            let rest = ws.drop_first();
            assert forall|i: int| 0 <= i < rest.len() implies is_plain_word(#[trigger] rest[i]) by {
                assert(rest[i] == ws[i + 1]);
            }
            lemma_spaced_bytes_words(rest);
            let c = spaced_bytes(rest);
            let a = w0 + seq![32u8];
            assert(b =~= a + c);
            assert(b[n0] == 32);
            assert(whitespace_len(b, n0) == 1);
            lemma_scan_shift(a, c, 0, None);
            assert(words(b) =~= seq![(0, n0)] + shift_ranges(words(c), a.len() as int));
            assert forall|i: int| 0 <= i < ws.len() implies {
                let w = #[trigger] words(b)[i];
                b.subrange(w.0, w.1) == ascii_bytes(ws[i])
            } by {
                if i > 0 {
                    lemma_words_in_range(c);
                    let wc = words(c)[i - 1];
                    assert(words(b)[i] == (wc.0 + a.len(), wc.1 + a.len()));
                    assert(c.subrange(wc.0, wc.1) == ascii_bytes(rest[i - 1]));
                    lemma_words_in_range(c);
                    assert(b.subrange(wc.0 + a.len(), wc.1 + a.len()) =~= c.subrange(wc.0, wc.1));
                }
            }
        }
    }
}

proof fn lemma_words_in_range(b: Seq<u8>)
    ensures
        forall|i: int| 0 <= i < words(b).len() ==> 0 <= (#[trigger] words(b)[i]).0 <= words(b)[i].1 <= b.len(),
{
    crate::tokens::lemma_scan_bounds(b, 0, None);
}

/// The second line written for a list of plain words splits back into
/// exactly those words: reading a saved network finds one word per weight
/// that was written, each with the text that was written for it.
pub proof fn lemma_weights_line_roundtrip(ws: Seq<Seq<char>>)
    requires
        forall|i: int| 0 <= i < ws.len() ==> is_plain_word(#[trigger] ws[i]),
    ensures
        ({
            let b = vstd::utf8::encode_utf8(spaced_line(ws));
            &&& words(b).len() == ws.len()
            &&& forall|i: int|
                0 <= i < ws.len() ==> {
                    let w = #[trigger] words(b)[i];
                    b.subrange(w.0, w.1) == ascii_bytes(ws[i])
                }
        }),
{
    lemma_spaced_bytes(ws);
    let line = spaced_line(ws);
    vstd::utf8::is_ascii_chars_encode_utf8(line);
    assert(vstd::utf8::encode_utf8(line) =~= ascii_bytes(line));
    lemma_spaced_bytes_words(ws);
}

} // verus!
