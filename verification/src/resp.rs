//! Reply values, the tagged reply grammar, and the incremental decoder.

use vstd::prelude::*;

use crate::frame::{find_crlf, lemma_find_crlf, Response, CR, LF};
use crate::num::{int_text_val, is_int_text};
use crate::types::RedisError;
use vstd::utf8::{decode_utf8, valid_utf8};

verus! {

/// A decoded reply: the closed tagged union of the reply grammar.
///
/// `Okay` is the simple-string line `+OK`; any other simple-string line
/// decodes to `Data` of its bytes. `Status` carries the message of a `-`
/// error line. `Nil` is a bulk string or an array whose length line reads
/// -1, the protocol's absent value.
#[derive(Debug, PartialEq, Eq)]
pub enum Value {
    Nil,
    Int(i64),
    Data(Vec<u8>),
    Bulk(Vec<Value>),
    Status(String),
    Okay,
}

/// The mathematical model of a reply value, used by every contract.
#[verifier::ext_equal]
pub enum ValModel {
    Nil,
    Int(int),
    Data(Seq<u8>),
    Bulk(Seq<ValModel>),
    Status(Seq<char>),
    Okay,
}

impl Value {
    /// The model this value denotes.
    pub open spec fn model(self) -> ValModel
        decreases self,
    {
        match self {
            Value::Nil => ValModel::Nil,
            Value::Int(d) => ValModel::Int(d as int),
            Value::Data(b) => ValModel::Data(b@),
            Value::Bulk(elems) => {
                proof {
                    assert(decreases_to!(self => elems));
                    assert(decreases_to!(elems => elems@));
                }
                ValModel::Bulk(Value::models(elems@))
            },
            Value::Status(s) => ValModel::Status(s@),
            Value::Okay => ValModel::Okay,
        }
    }

    /// The models of a sequence of values, element by element.
    pub open spec fn models(s: Seq<Value>) -> Seq<ValModel>
        decreases s,
    {
        if s.len() == 0 {
            Seq::empty()
        } else {
            proof {
                assert(decreases_to!(s => s[s.len() - 1]));
                vstd::seq::axiom_seq_len_decreases(s, s.drop_last());
            }
            Value::models(s.drop_last()).push(s.last().model())
        }
    }
}

/// The reply tag of a simple string line.
pub const TAG_SIMPLE: u8 = 43;

/// The reply tag of an error line.
pub const TAG_ERROR: u8 = 45;

/// The reply tag of an integer line.
pub const TAG_INT: u8 = 58;

/// The reply tag of a bulk string.
pub const TAG_BULK: u8 = 36;

/// The reply tag of an array.
pub const TAG_ARRAY: u8 = 42;

/// The bytes of the distinguished simple-string line `OK`.
pub open spec fn ok_line() -> Seq<u8> {
    seq![79u8, 75u8]
}

/// The outcome of parsing one reply at a position: a complete value and the
/// position just past it, a need for more bytes, or a terminal decode error.
#[verifier::ext_equal]
pub enum SpecParse {
    Done(ValModel, int),
    More,
    Fail(RedisError),
}

/// The outcome of parsing a run of consecutive replies.
#[verifier::ext_equal]
pub enum SpecParseSeq {
    Done(Seq<ValModel>, int),
    More,
    Fail(RedisError),
}

/// Parses one reply of the tagged grammar at position `i` of `s`.
///
/// This is the reference meaning of the wire format: one tag byte, then a
/// CR-LF-terminated line, and for bulk strings and arrays the payload the
/// length line announces. A missing delimiter or payload is `More`, never an
/// error; malformed integer text, a misplaced delimiter, invalid UTF-8 in an
/// error line, and an unsupported tag are terminal failures.
pub open spec fn spec_decode(s: Seq<u8>, i: int) -> SpecParse
    decreases s.len() - i, 0int, 0int,
{
    if i < 0 || i >= s.len() {
        SpecParse::More
    } else if s[i] == TAG_SIMPLE {
        match find_crlf(s, i + 1) {
            Option::None => SpecParse::More,
            Option::Some(p) => {
                let line = s.subrange(i + 1, p);
                SpecParse::Done(
                    if line == ok_line() {
                        ValModel::Okay
                    } else {
                        ValModel::Data(line)
                    },
                    p + 2,
                )
            },
        }
    } else if s[i] == TAG_ERROR {
        match find_crlf(s, i + 1) {
            Option::None => SpecParse::More,
            Option::Some(p) => {
                let line = s.subrange(i + 1, p);
                if valid_utf8(line) {
                    SpecParse::Done(ValModel::Status(decode_utf8(line)), p + 2)
                } else {
                    SpecParse::Fail(RedisError::InvalidUtf8)
                }
            },
        }
    } else if s[i] == TAG_INT {
        match find_crlf(s, i + 1) {
            Option::None => SpecParse::More,
            Option::Some(p) => {
                let line = s.subrange(i + 1, p);
                if is_int_text(line) && i64::MIN <= int_text_val(line) <= i64::MAX {
                    SpecParse::Done(ValModel::Int(int_text_val(line)), p + 2)
                } else {
                    SpecParse::Fail(RedisError::MalformedInteger)
                }
            },
        }
    } else if s[i] == TAG_BULK {
        match find_crlf(s, i + 1) {
            Option::None => SpecParse::More,
            Option::Some(p) => {
                let line = s.subrange(i + 1, p);
                if !(is_int_text(line) && i64::MIN <= int_text_val(line) <= i64::MAX) {
                    SpecParse::Fail(RedisError::MalformedInteger)
                } else {
                    let n = int_text_val(line);
                    if n == -1 {
                        SpecParse::Done(ValModel::Nil, p + 2)
                    } else if n < 0 {
                        SpecParse::Fail(RedisError::MalformedInteger)
                    } else if p + 2 + n + 2 > s.len() {
                        SpecParse::More
                    } else if s[p + 2 + n] == CR && s[p + 2 + n + 1] == LF {
                        SpecParse::Done(ValModel::Data(s.subrange(p + 2, p + 2 + n)), p + 2 + n + 2)
                    } else {
                        SpecParse::Fail(RedisError::MissingDelimiter)
                    }
                }
            },
        }
    } else if s[i] == TAG_ARRAY {
        match find_crlf(s, i + 1) {
            Option::None => SpecParse::More,
            Option::Some(p) => {
                let line = s.subrange(i + 1, p);
                if !(is_int_text(line) && i64::MIN <= int_text_val(line) <= i64::MAX) {
                    SpecParse::Fail(RedisError::MalformedInteger)
                } else {
                    let n = int_text_val(line);
                    if n == -1 {
                        SpecParse::Done(ValModel::Nil, p + 2)
                    } else if n < 0 {
                        SpecParse::Fail(RedisError::MalformedInteger)
                    } else {
                        proof {
                            lemma_find_crlf(s, i + 1);
                        }
                        match spec_decode_seq(s, p + 2, n) {
                            SpecParseSeq::Done(vs, j) => SpecParse::Done(ValModel::Bulk(vs), j),
                            SpecParseSeq::More => SpecParse::More,
                            SpecParseSeq::Fail(e) => SpecParse::Fail(e),
                        }
                    }
                }
            },
        }
    } else {
        SpecParse::Fail(RedisError::UnexpectedResponseType)
    }
}

/// Parses `n` consecutive replies starting at position `i` of `s`.
pub open spec fn spec_decode_seq(s: Seq<u8>, i: int, n: int) -> SpecParseSeq
    decreases s.len() - i, 1int, n,
{
    if n <= 0 {
        SpecParseSeq::Done(Seq::empty(), i)
    } else {
        match spec_decode(s, i) {
            SpecParse::Done(v, j) => if i < j <= s.len() {
                match spec_decode_seq(s, j, n - 1) {
                    SpecParseSeq::Done(vs, k) => SpecParseSeq::Done(seq![v] + vs, k),
                    SpecParseSeq::More => SpecParseSeq::More,
                    SpecParseSeq::Fail(e) => SpecParseSeq::Fail(e),
                }
            } else {
                // A completed parse always moves forward (lemma_decode_advances),
                // so this arm is unreachable.
                SpecParseSeq::Fail(RedisError::UnexpectedResponseType)
            },
            SpecParse::More => SpecParseSeq::More,
            SpecParse::Fail(e) => SpecParseSeq::Fail(e),
        }
    }
}

/// A completed parse consumes at least one byte and stays within the buffer.
pub proof fn lemma_decode_advances(s: Seq<u8>, i: int)
    requires
        0 <= i,
    ensures
        spec_decode(s, i) matches SpecParse::Done(v, j) ==> i < j <= s.len(),
    decreases s.len() - i, 0int, 0int,
{
    if i < s.len() {
        lemma_find_crlf(s, i + 1);
        if s[i] == TAG_ARRAY {
            if let Option::Some(p) = find_crlf(s, i + 1) {
                let line = s.subrange(i + 1, p);
                if is_int_text(line) && i64::MIN <= int_text_val(line) <= i64::MAX {
                    let n = int_text_val(line);
                    if n >= 0 {
                        lemma_decode_seq_advances(s, p + 2, n);
                    }
                }
            }
        }
    }
}

/// A completed run of parses never moves backwards and stays within the
/// buffer.
pub proof fn lemma_decode_seq_advances(s: Seq<u8>, i: int, n: int)
    requires
        0 <= i <= s.len(),
    ensures
        spec_decode_seq(s, i, n) matches SpecParseSeq::Done(vs, j) ==> i <= j <= s.len(),
    decreases s.len() - i, 1int, n,
{
    if n > 0 {
        lemma_decode_advances(s, i);
        if let SpecParse::Done(v, j) = spec_decode(s, i) {
            lemma_decode_seq_advances(s, j, n - 1);
        }
    }
}

/// `models` is the element-wise image of `model`.
pub proof fn lemma_models_index(s: Seq<Value>)
    ensures
        Value::models(s).len() == s.len(),
        forall|i: int| 0 <= i < s.len() ==> Value::models(s)[i] == s[i].model(),
    decreases s.len(),
{
    if s.len() > 0 {
        lemma_models_index(s.drop_last());
    }
}

/// A found delimiter is found alike in any buffer that carries the same
/// bytes up to some bound past it.
proof fn lemma_find_crlf_local(s1: Seq<u8>, s2: Seq<u8>, a: int, p: int, j: int)
    requires
        0 <= a,
        find_crlf(s1, a) == Option::Some(p),
        p + 2 <= j <= s1.len(),
        j <= s2.len(),
        forall|q: int| a <= q < j ==> s1[q] == #[trigger] s2[q],
    ensures
        find_crlf(s2, a) == Option::Some(p),
    decreases p - a,
{
    lemma_find_crlf(s1, a);
    if !(s1[a] == CR && s1[a + 1] == LF) {
        lemma_find_crlf_local(s1, s2, a + 1, p, j);
    }
}

/// No whole delimiter yet: cutting a buffer anywhere before the end of its
/// first delimiter leaves no delimiter to find.
proof fn lemma_find_crlf_prefix(s: Seq<u8>, a: int, p: int, k: int)
    requires
        0 <= a,
        0 <= k <= s.len(),
        find_crlf(s, a) == Option::Some(p),
        k <= p + 1,
    ensures
        find_crlf(s.subrange(0, k), a) is None,
    decreases p - a,
{
    lemma_find_crlf(s, a);
    if s[a] == CR && s[a + 1] == LF {
        // The first delimiter starts at `a` itself, and the cut truncates it.
        assert(a + 2 > k);
    } else if a + 2 <= k {
        lemma_find_crlf_prefix(s, a + 1, p, k);
    }
}

/// One frame's parse depends only on its own bytes: a buffer that carries
/// the same bytes over the whole frame parses to the same value and end.
pub proof fn lemma_decode_local(s1: Seq<u8>, s2: Seq<u8>, i: int)
    requires
        0 <= i,
        spec_decode(s1, i) is Done,
        spec_decode(s1, i)->Done_1 <= s2.len(),
        forall|q: int| i <= q < spec_decode(s1, i)->Done_1 ==> s1[q] == #[trigger] s2[q],
    ensures
        spec_decode(s2, i) == spec_decode(s1, i),
    decreases s1.len() - i, 0int, 0int,
{
    lemma_decode_advances(s1, i);
    let j = spec_decode(s1, i)->Done_1;
    if s1[i] == TAG_SIMPLE || s1[i] == TAG_ERROR || s1[i] == TAG_INT {
        let p = find_crlf(s1, i + 1)->0;
        lemma_find_crlf(s1, i + 1);
        lemma_find_crlf_local(s1, s2, i + 1, p, j);
        assert(s1.subrange(i + 1, p) =~= s2.subrange(i + 1, p));
    } else if s1[i] == TAG_BULK {
        let p = find_crlf(s1, i + 1)->0;
        lemma_find_crlf(s1, i + 1);
        lemma_find_crlf_local(s1, s2, i + 1, p, j);
        assert(s1.subrange(i + 1, p) =~= s2.subrange(i + 1, p));
        let line = s1.subrange(i + 1, p);
        let n = int_text_val(line);
        if n >= 0 {
            assert(s1.subrange(p + 2, p + 2 + n) =~= s2.subrange(p + 2, p + 2 + n));
        }
    } else if s1[i] == TAG_ARRAY {
        let p = find_crlf(s1, i + 1)->0;
        lemma_find_crlf(s1, i + 1);
        let line = s1.subrange(i + 1, p);
        let n = int_text_val(line);
        if is_int_text(line) && i64::MIN <= n <= i64::MAX && n >= 0 {
            lemma_decode_seq_advances(s1, p + 2, n);
        }
        lemma_find_crlf_local(s1, s2, i + 1, p, j);
        assert(s1.subrange(i + 1, p) =~= s2.subrange(i + 1, p));
        if is_int_text(line) && i64::MIN <= n <= i64::MAX && n >= 0 {
            lemma_decode_seq_local(s1, s2, p + 2, n);
        }
    }
}

/// A run of frames likewise parses the same in any buffer that carries the
/// same bytes over the whole run.
pub proof fn lemma_decode_seq_local(s1: Seq<u8>, s2: Seq<u8>, i: int, n: int)
    requires
        0 <= i <= s1.len(),
        spec_decode_seq(s1, i, n) is Done,
        spec_decode_seq(s1, i, n)->Done_1 <= s2.len(),
        forall|q: int| i <= q < spec_decode_seq(s1, i, n)->Done_1 ==> s1[q] == #[trigger] s2[q],
    ensures
        spec_decode_seq(s2, i, n) == spec_decode_seq(s1, i, n),
    decreases s1.len() - i, 1int, n,
{
    if n > 0 {
        lemma_decode_advances(s1, i);
        let j1 = spec_decode(s1, i)->Done_1;
        lemma_decode_seq_advances(s1, j1, n - 1);
        lemma_decode_local(s1, s2, i);
        lemma_decode_seq_local(s1, s2, j1, n - 1);
    }
}

/// A strict byte-prefix of a complete frame decodes to "need more bytes".
pub proof fn lemma_decode_prefix(s: Seq<u8>, i: int, k: int)
    requires
        0 <= i <= k,
        spec_decode(s, i) is Done,
        k < spec_decode(s, i)->Done_1,
    ensures
        spec_decode(s.subrange(0, k), i) is More,
    decreases s.len() - i, 0int, 0int,
{
    lemma_decode_advances(s, i);
    let j = spec_decode(s, i)->Done_1;
    let cut = s.subrange(0, k);
    if k == i {
    } else {
        assert(cut[i] == s[i]);
        if s[i] == TAG_SIMPLE || s[i] == TAG_ERROR || s[i] == TAG_INT {
            let p = find_crlf(s, i + 1)->0;
            lemma_find_crlf(s, i + 1);
            lemma_find_crlf_prefix(s, i + 1, p, k);
        } else if s[i] == TAG_BULK || s[i] == TAG_ARRAY {
            let p = find_crlf(s, i + 1)->0;
            lemma_find_crlf(s, i + 1);
            if k <= p + 1 {
                lemma_find_crlf_prefix(s, i + 1, p, k);
            } else {
                lemma_find_crlf_local(s, cut, i + 1, p, k);
                assert(s.subrange(i + 1, p) =~= cut.subrange(i + 1, p));
                let line = s.subrange(i + 1, p);
                let n = int_text_val(line);
                if s[i] == TAG_BULK {
                    // Nil and failing lines end at p + 2 <= k, contradicting
                    // k < j; a payload cut short is More by the length test.
                    assert(n >= 0);
                    assert(p + 2 + n + 2 > cut.len());
                } else {
                    assert(n >= 0);
                    lemma_decode_seq_prefix(s, p + 2, n, k);
                }
            }
        }
    }
}

/// A strict byte-prefix of a complete run of frames decodes to "need more".
pub proof fn lemma_decode_seq_prefix(s: Seq<u8>, i: int, n: int, k: int)
    requires
        0 <= i <= k <= s.len(),
        spec_decode_seq(s, i, n) is Done,
        k < spec_decode_seq(s, i, n)->Done_1,
    ensures
        spec_decode_seq(s.subrange(0, k), i, n) is More,
    decreases s.len() - i, 1int, n,
{
    lemma_decode_seq_advances(s, i, n);
    if n > 0 {
        lemma_decode_advances(s, i);
        let j1 = spec_decode(s, i)->Done_1;
        lemma_decode_seq_advances(s, j1, n - 1);
        if k < j1 {
            lemma_decode_prefix(s, i, k);
        } else {
            lemma_decode_local(s, s.subrange(0, k), i);
            lemma_decode_seq_prefix(s, j1, n - 1, k);
        }
    }
}

/// Trailing bytes beyond a complete frame never change what it decodes to.
pub proof fn lemma_decode_extend(s: Seq<u8>, t: Seq<u8>, i: int)
    requires
        0 <= i,
        spec_decode(s, i) is Done,
    ensures
        spec_decode(s + t, i) == spec_decode(s, i),
{
    lemma_decode_advances(s, i);
    lemma_decode_local(s, s + t, i);
}

/// The fragmentation invariant: splitting a complete reply at any byte
/// offset, decoding the first fragment alone says "need more bytes", and
/// decoding after the second fragment is appended gives the same value, and
/// consumes the same count of bytes, as decoding the unsplit sequence.
pub proof fn lemma_fragmentation(s: Seq<u8>, cut: int)
    requires
        spec_decode(s, 0) is Done,
        0 <= cut < spec_decode(s, 0)->Done_1,
    ensures
        spec_decode(s.subrange(0, cut), 0) is More,
        s.subrange(0, cut) + s.subrange(cut, s.len() as int) == s,
        spec_decode(s.subrange(0, cut) + s.subrange(cut, s.len() as int), 0) == spec_decode(s, 0),
{
    lemma_decode_advances(s, 0);
    lemma_decode_prefix(s, 0, cut);
    assert(s.subrange(0, cut) + s.subrange(cut, s.len() as int) =~= s);
}

/// Does this element of an array reply convert to a string?
pub open spec fn elem_converts(v: Value) -> bool {
    v matches Value::Data(b) && valid_utf8(b@)
}

/// The index of the first element that does not convert to a string, or the
/// length when every element does.
pub open spec fn first_unconvertible(s: Seq<Value>) -> int
    decreases s.len(),
{
    if s.len() == 0 {
        0
    } else if !elem_converts(s[0]) {
        0
    } else {
        1 + first_unconvertible(s.drop_first())
    }
}

/// The error an element's failed string conversion yields.
pub open spec fn elem_error(v: Value) -> RedisError {
    if v matches Value::Data(b) {
        RedisError::InvalidUtf8
    } else {
        RedisError::ErrIllegalTypeConversion(v)
    }
}

/// `first_unconvertible` is the least index at which conversion fails.
pub proof fn lemma_first_unconvertible(s: Seq<Value>, k: int)
    requires
        0 <= k <= s.len(),
        forall|i: int| 0 <= i < k ==> elem_converts(#[trigger] s[i]),
    ensures
        k == s.len() ==> first_unconvertible(s) == k,
        k < s.len() && !elem_converts(s[k]) ==> first_unconvertible(s) == k,
    decreases s.len(),
{
    if s.len() > 0 && k > 0 {
        assert(elem_converts(s[0]));
        assert(forall|i: int|
            0 <= i < k - 1 ==> #[trigger] s.drop_first()[i] == s[i + 1] && elem_converts(
                s[i + 1],
            ));
        lemma_first_unconvertible(s.drop_first(), k - 1);
    }
}

/// The outcome of one decode attempt against the frame buffer.
#[derive(Debug, PartialEq, Eq)]
pub enum DecodeResult {
    /// A whole reply was present; the cursor now stands just past it.
    Complete(Value),
    /// The frame is not whole yet: refill the buffer and retry. The cursor
    /// is unchanged, so the retry sees the same logical stream.
    Incomplete,
    /// The bytes violate the grammar; terminal for this response. The cursor
    /// is unchanged.
    Failed(RedisError),
}

/// Relies on `String::from_utf8`: it succeeds exactly on valid UTF-8 and
/// returns the string whose characters those bytes encode.
#[verifier::external_body]
fn string_from_utf8(v: Vec<u8>) -> (r: Option<String>)
    ensures
        r is Some <==> valid_utf8(v@),
        r matches Some(s) ==> s@ == decode_utf8(v@),
{
    String::from_utf8(v).ok()
}

impl Value {
    /// Decodes one reply from the buffer, exactly as [`spec_decode`] reads
    /// the same bytes at the same cursor. On `Complete` the cursor moves just
    /// past the frame; otherwise it is restored, so that after a refill the
    /// whole decode can be retried against the same logical stream.
    pub fn from_frame(f: &mut Response) -> (r: DecodeResult)
        requires
            old(f).wf(),
        ensures
            final (f).wf(),
            final (f).data() == old(f).data(),
            match r {
                DecodeResult::Complete(v) => spec_decode(old(f).data(), old(f).pos())
                    == SpecParse::Done(v.model(), final (f).pos()),
                DecodeResult::Incomplete => spec_decode(old(f).data(), old(f).pos())
                    is More && final (f).pos() == old(f).pos(),
                DecodeResult::Failed(e) => spec_decode(old(f).data(), old(f).pos())
                    == SpecParse::Fail(e) && final (f).pos() == old(f).pos(),
            },
        decreases old(f).data().len() - old(f).pos(),
    {
        let ghost s = old(f).data();
        let start = f.cursor();
        let tag_bytes = match f.read(1) {
            Option::None => {
                return DecodeResult::Incomplete;
            },
            Option::Some(t) => t,
        };
        let tag = tag_bytes[0];
        proof {
            assert(s[start as int] == tag);
        }
        if tag == TAG_SIMPLE {
            match f.read_next() {
                Option::None => {
                    f.rewind(start);
                    DecodeResult::Incomplete
                },
                Option::Some(line) => {
                    if line.len() == 2 && line[0] == 79 && line[1] == 75 {
                        proof {
                            assert(line@ =~= ok_line());
                        }
                        DecodeResult::Complete(Value::Okay)
                    } else {
                        proof {
                            assert(line@ != ok_line());
                        }
                        DecodeResult::Complete(Value::Data(line))
                    }
                },
            }
        } else if tag == TAG_ERROR {
            match f.read_next() {
                Option::None => {
                    f.rewind(start);
                    DecodeResult::Incomplete
                },
                Option::Some(line) => {
                    match string_from_utf8(line) {
                        Option::Some(text) => DecodeResult::Complete(Value::Status(text)),
                        Option::None => {
                            f.rewind(start);
                            DecodeResult::Failed(RedisError::InvalidUtf8)
                        },
                    }
                },
            }
        } else if tag == TAG_INT {
            match f.read_next() {
                Option::None => {
                    f.rewind(start);
                    DecodeResult::Incomplete
                },
                Option::Some(line) => {
                    match crate::num::parse_i64(line.as_slice()) {
                        Option::Some(v) => DecodeResult::Complete(Value::Int(v)),
                        Option::None => {
                            f.rewind(start);
                            DecodeResult::Failed(RedisError::MalformedInteger)
                        },
                    }
                },
            }
        } else if tag == TAG_BULK {
            match f.read_next() {
                Option::None => {
                    f.rewind(start);
                    DecodeResult::Incomplete
                },
                Option::Some(line) => {
                    match crate::num::parse_i64(line.as_slice()) {
                        Option::None => {
                            f.rewind(start);
                            DecodeResult::Failed(RedisError::MalformedInteger)
                        },
                        Option::Some(n) => {
                            if n == -1 {
                                DecodeResult::Complete(Value::Nil)
                            } else if n < 0 {
                                f.rewind(start);
                                DecodeResult::Failed(RedisError::MalformedInteger)
                            } else if n as u64 > usize::MAX as u64 {
                                // The whole payload cannot have arrived: the
                                // buffer itself is capped at usize::MAX bytes.
                                let total = f.len();
                                proof {
                                    assert(f.pos() + n + 2 > total);
                                }
                                f.rewind(start);
                                DecodeResult::Incomplete
                            } else {
                                let count = n as usize;
                                match f.read(count) {
                                    Option::None => {
                                        f.rewind(start);
                                        DecodeResult::Incomplete
                                    },
                                    Option::Some(payload) => {
                                        match f.read(2) {
                                            Option::None => {
                                                f.rewind(start);
                                                DecodeResult::Incomplete
                                            },
                                            Option::Some(delim) => {
                                                if delim[0] == CR && delim[1] == LF {
                                                    DecodeResult::Complete(Value::Data(payload))
                                                } else {
                                                    f.rewind(start);
                                                    DecodeResult::Failed(
                                                        RedisError::MissingDelimiter,
                                                    )
                                                }
                                            },
                                        }
                                    },
                                }
                            }
                        },
                    }
                },
            }
        } else if tag == TAG_ARRAY {
            match f.read_next() {
                Option::None => {
                    f.rewind(start);
                    DecodeResult::Incomplete
                },
                Option::Some(line) => {
                    match crate::num::parse_i64(line.as_slice()) {
                        Option::None => {
                            f.rewind(start);
                            DecodeResult::Failed(RedisError::MalformedInteger)
                        },
                        Option::Some(n) => {
                            if n == -1 {
                                DecodeResult::Complete(Value::Nil)
                            } else if n < 0 {
                                f.rewind(start);
                                DecodeResult::Failed(RedisError::MalformedInteger)
                            } else {
                                let ghost p: int = find_crlf(s, start + 1)->0;
                                let ghost q: int = f.pos();
                                proof {
                                    lemma_find_crlf(s, start + 1);
                                }
                                let mut elems: Vec<Value> = Vec::new();
                                let mut k: i64 = 0;
                                while k < n
                                    invariant
                                        old(f).wf(),
                                        f.wf(),
                                        f.data() == s,
                                        s == old(f).data(),
                                        start == old(f).pos(),
                                        0 <= start,
                                        start + 1 < s.len(),
                                        s[start as int] == TAG_ARRAY,
                                        find_crlf(s, start + 1 as int) == Option::Some(p),
                                        is_int_text(s.subrange(start + 1, p)),
                                        int_text_val(s.subrange(start + 1, p)) == n,
                                        i64::MIN <= n <= i64::MAX,
                                        0 <= n,
                                        q == p + 2,
                                        start + 3 <= q <= f.pos() <= s.len(),
                                        0 <= k <= n,
                                        elems@.len() == k as int,
                                        match spec_decode_seq(s, f.pos(), n as int - k as int) {
                                            SpecParseSeq::Done(vs, j) => spec_decode_seq(s, q, n as int)
                                                == SpecParseSeq::Done(
                                                Value::models(elems@) + vs,
                                                j,
                                            ),
                                            SpecParseSeq::More => spec_decode_seq(s, q, n as int)
                                                is More,
                                            SpecParseSeq::Fail(e) => spec_decode_seq(s, q, n as int)
                                                == SpecParseSeq::Fail(e),
                                        },
                                    decreases n - k,
                                {
                                    let ghost cur = f.pos();
                                    match Value::from_frame(f) {
                                        DecodeResult::Complete(v) => {
                                            proof {
                                                lemma_decode_advances(s, cur);
                                                lemma_models_index(elems@.push(v));
                                                lemma_models_index(elems@);
                                                assert(elems@.push(v).drop_last() =~= elems@);
                                                assert(Value::models(elems@.push(v))
                                                    =~= Value::models(elems@).push(v.model()));
                                                if let SpecParseSeq::Done(vs, j) = spec_decode_seq(
                                                    s,
                                                    f.pos(),
                                                    n as int - k as int - 1,
                                                ) {
                                                    assert(Value::models(elems@) + (seq![v.model()]
                                                        + vs) =~= Value::models(elems@.push(v))
                                                        + vs);
                                                }
                                            }
                                            elems.push(v);
                                            k = k + 1;
                                        },
                                        DecodeResult::Incomplete => {
                                            f.rewind(start);
                                            return DecodeResult::Incomplete;
                                        },
                                        DecodeResult::Failed(e) => {
                                            f.rewind(start);
                                            return DecodeResult::Failed(e);
                                        },
                                    }
                                }
                                proof {
                                    assert(spec_decode_seq(s, f.pos(), 0) == SpecParseSeq::Done(
                                        Seq::<ValModel>::empty(),
                                        f.pos(),
                                    ));
                                    assert(Value::models(elems@) + Seq::<ValModel>::empty()
                                        =~= Value::models(elems@));
                                }
                                DecodeResult::Complete(Value::Bulk(elems))
                            }
                        },
                    }
                },
            }
        } else {
            f.rewind(start);
            DecodeResult::Failed(RedisError::UnexpectedResponseType)
        }
    }
}

impl Value {
    /// Converts to the unit type: every value converts, and is discarded.
    pub fn into_unit(self) -> (r: Result<(), RedisError>)
        ensures
            r == Result::<(), RedisError>::Ok(()),
    {
        Ok(())
    }

    /// Converts to a signed integer: exactly `Int` values convert. An error
    /// reply propagates as `ErrorResponse` with the server's message; any
    /// other value is an illegal conversion carrying that value.
    pub fn into_i64(self) -> (r: Result<i64, RedisError>)
        ensures
            match self {
                Value::Int(d) => r == Result::<i64, RedisError>::Ok(d),
                Value::Status(m) => r == Result::<i64, RedisError>::Err(
                    RedisError::ErrorResponse(m),
                ),
                _ => r == Result::<i64, RedisError>::Err(
                    RedisError::ErrIllegalTypeConversion(self),
                ),
            },
    {
        match self {
            Value::Int(d) => Ok(d),
            Value::Status(m) => Err(RedisError::ErrorResponse(m)),
            other => Err(RedisError::ErrIllegalTypeConversion(other)),
        }
    }

    /// Converts to an unsigned size: exactly `Int` values that are
    /// non-negative and within the machine's range convert; everything else
    /// is an illegal conversion.
    pub fn into_usize(self) -> (r: Result<usize, RedisError>)
        ensures
            match self {
                Value::Int(d) => if 0 <= d && d <= usize::MAX {
                    r == Result::<usize, RedisError>::Ok(d as usize)
                } else {
                    r == Result::<usize, RedisError>::Err(
                        RedisError::ErrIllegalTypeConversion(self),
                    )
                },
                _ => r == Result::<usize, RedisError>::Err(
                    RedisError::ErrIllegalTypeConversion(self),
                ),
            },
    {
        match self {
            Value::Int(d) => {
                if d >= 0 && d as u64 <= usize::MAX as u64 {
                    Ok(d as usize)
                } else {
                    Err(RedisError::ErrIllegalTypeConversion(Value::Int(d)))
                }
            },
            other => Err(RedisError::ErrIllegalTypeConversion(other)),
        }
    }

    /// Converts to a string: exactly `Data` holding valid UTF-8 converts,
    /// decoded as that text. `Data` with other bytes is a checked UTF-8
    /// failure, never a panic; any other value is an illegal conversion.
    pub fn into_string(self) -> (r: Result<String, RedisError>)
        ensures
            match self {
                Value::Data(b) => if valid_utf8(b@) {
                    r matches Ok(s) && s@ == decode_utf8(b@)
                } else {
                    r == Result::<String, RedisError>::Err(RedisError::InvalidUtf8)
                },
                _ => r == Result::<String, RedisError>::Err(
                    RedisError::ErrIllegalTypeConversion(self),
                ),
            },
    {
        match self {
            Value::Data(b) => {
                match string_from_utf8(b) {
                    Option::Some(text) => Ok(text),
                    Option::None => Err(RedisError::InvalidUtf8),
                }
            },
            other => Err(RedisError::ErrIllegalTypeConversion(other)),
        }
    }

    /// Converts to a sequence of strings: exactly `Bulk` values whose every
    /// element converts to a string. The first failing element short-circuits
    /// the conversion, propagating that element's own error.
    pub fn into_strings(self) -> (r: Result<Vec<String>, RedisError>)
        ensures
            match self {
                Value::Bulk(elems) => {
                    let bad = first_unconvertible(elems@);
                    if bad == elems@.len() {
                        r matches Ok(out) && out@.len() == elems@.len() && (forall|i: int|
                            0 <= i < out@.len() ==> #[trigger] out@[i]@ == decode_utf8(
                                elems@[i]->Data_0@,
                            ))
                    } else {
                        r == Result::<Vec<String>, RedisError>::Err(elem_error(elems@[bad]))
                    }
                },
                _ => r == Result::<Vec<String>, RedisError>::Err(
                    RedisError::ErrIllegalTypeConversion(self),
                ),
            },
    {
        match self {
            Value::Bulk(elems) => {
                let ghost orig = elems@;
                let mut rest = elems;
                let mut out: Vec<String> = Vec::new();
                while rest.len() > 0
                    invariant
                        self matches Value::Bulk(es) && es@ == orig,
                        out@.len() + rest@.len() == orig.len(),
                        orig.subrange(out@.len() as int, orig.len() as int) == rest@,
                        forall|i: int|
                            0 <= i < out@.len() ==> elem_converts(#[trigger] orig[i]),
                        forall|i: int|
                            0 <= i < out@.len() ==> #[trigger] out@[i]@ == decode_utf8(
                                orig[i]->Data_0@,
                            ),
                    decreases rest@.len(),
                {
                    let ghost k = out@.len() as int;
                    proof {
                        assert(rest@[0] == orig[k]);
                    }
                    let e = rest.remove(0);
                    proof {
                        assert(orig.subrange(k + 1, orig.len() as int) =~= rest@);
                    }
                    match e {
                        Value::Data(b) => {
                            match string_from_utf8(b) {
                                Option::Some(text) => {
                                    out.push(text);
                                },
                                Option::None => {
                                    proof {
                                        assert(!elem_converts(orig[k]));
                                        lemma_first_unconvertible(orig, k);
                                    }
                                    return Err(RedisError::InvalidUtf8);
                                },
                            }
                        },
                        other => {
                            proof {
                                lemma_first_unconvertible(orig, k);
                            }
                            return Err(RedisError::ErrIllegalTypeConversion(other));
                        },
                    }
                }
                proof {
                    lemma_first_unconvertible(orig, orig.len() as int);
                }
                Ok(out)
            },
            other => Err(RedisError::ErrIllegalTypeConversion(other)),
        }
    }
}

} // verus!
