//! Recovering complete JSON values from a growing byte stream.
use serde_json::{Error as JsonError, Value};
use vstd::prelude::*;
use vstd::slice::slice_subrange;

verus! {

/// The line terminator of the stream.
pub const NEWLINE: u8 = 0x0a;

/// The bytes that may stand between two values of the stream and are dropped
/// before a value is parsed: space, comma and newline. No other byte is.
pub open spec fn is_separator(b: u8) -> bool {
    b == 0x20 || b == 0x2c || b == 0x0a
}

/// `i` is the place of the last `needle` in `s`.
pub open spec fn is_last_occurrence(s: Seq<u8>, needle: u8, i: int) -> bool {
    &&& 0 <= i < s.len()
    &&& s[i] == needle
    &&& forall|j: int| i < j < s.len() ==> s[j] != needle
}

/// The place of the last newline of `s`, or -1 where `s` holds none.
pub open spec fn last_newline(s: Seq<u8>) -> int
    decreases s.len(),
{
    if s.len() == 0 {
        -1
    } else if s.last() == NEWLINE {
        s.len() - 1
    } else {
        last_newline(s.drop_last())
    }
}

/// The most recent line of `s` that a newline has terminated, and what
/// follows that newline. Earlier lines are dropped.
pub open spec fn last_line_spec(s: Seq<u8>) -> Option<(Seq<u8>, Seq<u8>)> {
    let end = last_newline(s);
    if end < 0 {
        None
    } else {
        let start = last_newline(s.take(end)) + 1;
        Some((s.subrange(start, end), s.skip(end + 1)))
    }
}

/// `last_newline` finds a newline exactly where there is one, and then the
/// last: no newline follows the place it gives.
pub proof fn lemma_last_newline(s: Seq<u8>)
    ensures
        -1 <= last_newline(s) < s.len(),
        last_newline(s) < 0 <==> !s.contains(NEWLINE),
        last_newline(s) >= 0 ==> is_last_occurrence(s, NEWLINE, last_newline(s)),
    decreases s.len(),
{
    if s.len() == 0 {
    } else if s.last() == NEWLINE {
        assert(s[s.len() - 1] == NEWLINE);
    } else {
        let t = s.drop_last();
        lemma_last_newline(t);
        if last_newline(t) >= 0 {
            let i = last_newline(t);
            assert(s[i] == t[i]);
            assert forall|j: int| i < j < s.len() implies s[j] != NEWLINE by {
                if j < t.len() {
                    assert(s[j] == t[j]);
                }
            }
        } else {
            assert forall|j: int| 0 <= j < s.len() implies s[j] != NEWLINE by {
                if j < t.len() {
                    assert(t[j] == s[j]);
                    assert(!t.contains(NEWLINE));
                }
            }
        }
    }
}

/// The last occurrence of a byte is unique: whoever finds one has found what
/// `last_newline` gives.
pub proof fn lemma_last_newline_unique(s: Seq<u8>, i: int)
    requires
        is_last_occurrence(s, NEWLINE, i),
    ensures
        last_newline(s) == i,
{
    lemma_last_newline(s);
    let k = last_newline(s);
    assert(s.contains(NEWLINE));
    if k < i {
        assert(s[i] != NEWLINE);
    } else if i < k {
        assert(s[k] != NEWLINE);
    }
}

/// `memchr::memrchr` returns the index of the last occurrence of `needle` in
/// `haystack`, and `None` exactly where `haystack` holds no `needle`.
pub assume_specification[ memchr::memrchr ](needle: u8, haystack: &[u8]) -> (r: Option<usize>)
    ensures
        match r {
            Some(i) => is_last_occurrence(haystack@, needle, i as int),
            None => !haystack@.contains(needle),
        },
;

/// Returns the last complete line of `s` and the bytes after it, or `None`
/// while no newline has arrived.
pub fn last_line(s: &[u8]) -> (r: Option<(&[u8], &[u8])>)
    ensures
        r is None <==> last_line_spec(s@) is None,
        r matches Some((line, tail)) ==> last_line_spec(s@) == Some((line@, tail@)),
{
    proof {
        lemma_last_newline(s@);
    }
    let last: usize = match memchr::memrchr(NEWLINE, s) {
        Some(i) => i,
        None => {
            return None;
        },
    };
    proof {
        lemma_last_newline_unique(s@, last as int);
    }
    assert(last < s.len());
    let rem = slice_subrange(s, last + 1, s.len());
    let head = slice_subrange(s, 0, last);
    proof {
        lemma_last_newline(head@);
        assert(head@ == s@.take(last as int));
        assert(rem@ == s@.skip(last + 1));
    }
    match memchr::memrchr(NEWLINE, head) {
        Some(pre_last) => {
            proof {
                lemma_last_newline_unique(head@, pre_last as int);
            }
            Some((slice_subrange(s, pre_last + 1, last), rem))
        },
        None => Some((head, rem)),
    }
}

/// A JSON value as the parser built it. Nothing in this crate looks inside.
#[verifier::external_type_specification]
#[verifier::external_body]
pub struct ExValue(serde_json::Value);

/// The parser's own error value. It is carried, and asked whether it reports
/// the end of the input.
#[verifier::external_type_specification]
#[verifier::external_body]
pub struct ExJsonError(serde_json::Error);

/// Why no value could be extracted.
#[derive(Debug)]
pub enum ExtractError {
    /// The input holds a syntax error that more bytes cannot mend.
    Malformed(JsonError),
}

/// What the stream parser reports for the first value of a byte string.
#[derive(Debug)]
pub struct Step {
    /// The value, the error, or `None` where only whitespace was left.
    pub item: Option<Result<Value, JsonError>>,
    /// How many bytes the parser is done with.
    pub offset: usize,
}

/// What the stream parser reports for the first value of `bytes`.
pub uninterp spec fn first_step(bytes: Seq<u8>) -> Step;

/// Whether a parser error says that the input ended inside a value.
pub uninterp spec fn is_eof_error(e: JsonError) -> bool;

/// `serde_json::Error::is_eof` tells whether the error was caused by reaching
/// the end of the input early; the answer depends on the error alone.
pub assume_specification[ serde_json::Error::is_eof ](e: &JsonError) -> (r: bool)
    ensures
        r == is_eof_error(*e),
;

/// Runs `serde_json`'s stream deserializer over `s` for one step: `next()`
/// for the item, then `byte_offset()`. The outcome depends on the bytes
/// alone. The offset lies inside `s`, and a value that was parsed spans at
/// least one byte.
#[verifier::external_body]
fn parse_first(s: &[u8]) -> (r: Step)
    ensures
        r == first_step(s@),
        r.offset <= s@.len(),
        r.item matches Some(Ok(_)) ==> r.offset >= 1,
{
    let mut stream = serde_json::Deserializer::from_slice(s).into_iter::<Value>();
    let item = stream.next();
    Step { item, offset: stream.byte_offset() }
}

/// How many separator bytes `s` begins with.
pub open spec fn separators_len(s: Seq<u8>) -> nat
    decreases s.len(),
{
    if s.len() > 0 && is_separator(s[0]) {
        1 + separators_len(s.drop_first())
    } else {
        0
    }
}

/// The result of an extraction: the value, if one was complete, and the
/// bytes to keep; or the error.
pub type Extracted = Result<(Option<Value>, Seq<u8>), ExtractError>;

/// What one parser step over `s` amounts to: a value and the bytes after it;
/// nothing yet, where the input ended too early or held only whitespace; an
/// error otherwise.
pub open spec fn settle_spec(step: Step, s: Seq<u8>) -> Extracted {
    match step.item {
        Some(Ok(v)) => Ok((Some(v), s.skip(step.offset as int))),
        Some(Err(e)) => if is_eof_error(e) {
            Ok((None, s.skip(step.offset as int)))
        } else {
            Err(ExtractError::Malformed(e))
        },
        None => Ok((None, s.skip(step.offset as int))),
    }
}

/// The first value of `s`: the leading separators are dropped, and the rest
/// is handed to the parser.
pub open spec fn de_first_json_spec(s: Seq<u8>) -> Extracted {
    let t = s.skip(separators_len(s) as int);
    settle_spec(first_step(t), t)
}

/// The last complete value of `s`, where `last` is the value found before
/// `s`: extraction is repeated on what each step leaves, the newest value
/// replaces the one before, and an error anywhere is the result.
pub open spec fn de_last_json_from(s: Seq<u8>, last: Option<Value>) -> Extracted
    decreases s.len(),
{
    match de_first_json_spec(s) {
        Err(e) => Err(e),
        Ok((None, rest)) => Ok((last, rest)),
        Ok((Some(v), rest)) => if rest.len() < s.len() {
            de_last_json_from(rest, Some(v))
        } else {
            Ok((Some(v), rest))
        },
    }
}

/// The last complete value of `s`.
pub open spec fn de_last_json_spec(s: Seq<u8>) -> Extracted {
    de_last_json_from(s, None)
}

/// An executable result and a specified one are the same.
pub open spec fn same_extracted(r: Result<(Option<Value>, &[u8]), ExtractError>, e: Extracted) -> bool {
    match r {
        Ok((v, rest)) => e == Ok::<(Option<Value>, Seq<u8>), ExtractError>((v, rest@)),
        Err(err) => e == Err::<(Option<Value>, Seq<u8>), ExtractError>(err),
    }
}

/// The separators in front of `s` are counted to the first byte that is
/// none: a byte other than space, comma and newline is never passed over.
pub proof fn lemma_separators_len(s: Seq<u8>)
    ensures
        separators_len(s) <= s.len(),
        forall|i: int| 0 <= i < separators_len(s) ==> is_separator(#[trigger] s[i]),
        separators_len(s) < s.len() ==> !is_separator(s[separators_len(s) as int]),
    decreases s.len(),
{
    if s.len() > 0 && is_separator(s[0]) {
        let t = s.drop_first();
        lemma_separators_len(t);
        assert forall|i: int| 0 <= i < separators_len(s) implies is_separator(#[trigger] s[i]) by {
            if i > 0 {
                assert(s[i] == t[i - 1]);
            }
        }
        if separators_len(s) < s.len() {
            assert(s[separators_len(s) as int] == t[separators_len(t) as int]);
        }
    }
}

/// Counting may start anywhere inside the leading separators.
proof fn lemma_separators_split(s: Seq<u8>, k: int)
    requires
        0 <= k <= s.len(),
        forall|i: int| 0 <= i < k ==> is_separator(#[trigger] s[i]),
    ensures
        separators_len(s) == k + separators_len(s.skip(k)),
    decreases k,
{
    if k == 0 {
        assert(s.skip(0) == s);
    } else {
        assert(is_separator(s[0]));
        let t = s.drop_first();
        assert forall|i: int| 0 <= i < k - 1 implies is_separator(#[trigger] t[i]) by {
            assert(t[i] == s[i + 1]);
        }
        lemma_separators_split(t, k - 1);
        assert(t.skip(k - 1) == s.skip(k));
    }
}

/// Drops the separators that `s` begins with.
pub fn skip_separators(s: &[u8]) -> (r: &[u8])
    ensures
        r@ == s@.skip(separators_len(s@) as int),
{
    let mut k: usize = 0;
    while k < s.len() && (s[k] == 0x20 || s[k] == 0x2c || s[k] == 0x0a)
        invariant
            k <= s.len(),
            forall|i: int| 0 <= i < k ==> is_separator(#[trigger] s@[i]),
        decreases s.len() - k,
    {
        k += 1;
    }
    proof {
        lemma_separators_split(s@, k as int);
        assert(s@.subrange(k as int, s@.len() as int) == s@.skip(k as int));
    }
    slice_subrange(s, k, s.len())
}

/// Turns one parser step over `s` into the result of an extraction.
pub fn settle<'a>(step: Step, s: &'a [u8]) -> (r: Result<(Option<Value>, &'a [u8]), ExtractError>)
    requires
        step.offset <= s@.len(),
    ensures
        same_extracted(r, settle_spec(step, s@)),
{
    let rest = slice_subrange(s, step.offset, s.len());
    assert(rest@ == s@.skip(step.offset as int));
    match step.item {
        Some(Ok(obj)) => Ok((Some(obj), rest)),
        Some(Err(e)) => {
            if e.is_eof() {
                Ok((None, rest))
            } else {
                Err(ExtractError::Malformed(e))
            }
        },
        None => Ok((None, rest)),
    }
}

/// Extracts the first complete value of `s`. Returns the value and the bytes
/// after it; or no value and the bytes to keep until more have arrived; or
/// the error, where the input is malformed.
pub fn de_first_json(s: &[u8]) -> (r: Result<(Option<Value>, &[u8]), ExtractError>)
    ensures
        same_extracted(r, de_first_json_spec(s@)),
        r matches Ok((v, rest)) ==> rest@.len() <= s@.len() && (v is Some ==> rest@.len() < s@.len()),
{
    let t = skip_separators(s);
    let step = parse_first(t);
    proof {
        lemma_separators_len(s@);
        assert(t@.skip(step.offset as int).len() == t@.len() - step.offset);
    }
    settle(step, t)
}

/// Extracts the last complete value of `s`. Returns it with the bytes that
/// follow it; an error anywhere in `s` is returned in place of any value
/// found before it.
pub fn de_last_json(s: &[u8]) -> (r: Result<(Option<Value>, &[u8]), ExtractError>)
    ensures
        same_extracted(r, de_last_json_spec(s@)),
        r matches Ok((_, rest)) ==> rest@.len() <= s@.len(),
{
    let mut last: Option<Value> = None;
    let mut cur = s;
    loop
        invariant
            de_last_json_from(cur@, last) == de_last_json_spec(s@),
            cur@.len() <= s@.len(),
        decreases cur@.len(),
    {
        match de_first_json(cur) {
            Err(e) => {
                return Err(e);
            },
            Ok((None, rest)) => {
                return Ok((last, rest));
            },
            Ok((Some(obj), rest)) => {
                last = Some(obj);
                cur = rest;
            },
        }
    }
}

/// The newest update that `buf` holds: the last value of its last complete
/// line. With it comes the number of bytes that the caller drops from the
/// front of `buf`: everything up to the end of that line, or nothing while
/// no line is complete.
pub open spec fn feed_spec(buf: Seq<u8>) -> Result<(Option<Value>, nat), ExtractError> {
    match last_line_spec(buf) {
        None => Ok((None, 0)),
        Some((line, tail)) => match de_last_json_spec(line) {
            Err(e) => Err(e),
            Ok((v, _)) => Ok((v, (buf.len() - tail.len()) as nat)),
        },
    }
}

/// Looks for the newest update in `buf`, the bytes received and not yet
/// dropped. Returns the update, if the last complete line holds one, and how
/// many bytes of `buf` are done with.
pub fn feed(buf: &[u8]) -> (r: Result<(Option<Value>, usize), ExtractError>)
    ensures
        match r {
            Ok((v, n)) => {
                &&& feed_spec(buf@) == Ok::<(Option<Value>, nat), ExtractError>((v, n as nat))
                &&& n <= buf@.len()
            },
            Err(e) => feed_spec(buf@) == Err::<(Option<Value>, nat), ExtractError>(e),
        },
{
    match last_line(buf) {
        None => Ok((None, 0)),
        Some((line, tail)) => {
            proof {
                lemma_last_newline(buf@);
            }
            match de_last_json(line) {
                Err(e) => Err(e),
                Ok((v, _)) => Ok((v, buf.len() - tail.len())),
            }
        },
    }
}

} // verus!
