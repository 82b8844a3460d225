//! Pointer paths: slash-separated, tilde-escaped addresses into a document tree.
//!
//! A path is either empty, which names the root, or a slash followed by the
//! segments joined with slashes. Inside a segment `~1` stands for a slash and
//! `~0` for a tilde. Every slash but the leading one parts two segments, so
//! that a segment may be empty: `/a/` names the empty key under `a`. The
//! lone slash is the one exception: like the empty path, it names the root.

use vstd::prelude::*;

verus! {

/// The one way a path can fail to parse.
#[derive(Clone, Copy, Debug, PartialEq, Eq)]
pub enum PathError {
    /// The path is not empty and does not start with a slash.
    PathInvalid,
}

/// `String::push` appends one character to the end of the string.
pub assume_specification[ String::push ](s: &mut String, ch: char)
    ensures
        final(s)@ == old(s)@.push(ch),
;

/// The text of a segment once its escapes are resolved: `~1` becomes `/`,
/// `~0` becomes `~`, every other character stands for itself.
pub open spec fn unescape(s: Seq<char>) -> Seq<char>
    decreases s.len(),
{
    if s.len() == 0 {
        s
    } else if s.len() >= 2 && s[0] == '~' && s[1] == '1' {
        seq!['/'] + unescape(s.skip(2))
    } else if s.len() >= 2 && s[0] == '~' && s[1] == '0' {
        seq!['~'] + unescape(s.skip(2))
    } else {
        seq![s[0]] + unescape(s.skip(1))
    }
}

/// The escaped form of a segment: `~` becomes `~0`, `/` becomes `~1`.
pub open spec fn escape(s: Seq<char>) -> Seq<char>
    decreases s.len(),
{
    if s.len() == 0 {
        s
    } else if s[0] == '~' {
        seq!['~', '0'] + escape(s.skip(1))
    } else if s[0] == '/' {
        seq!['~', '1'] + escape(s.skip(1))
    } else {
        seq![s[0]] + escape(s.skip(1))
    }
}

/// The number of characters in front of the first slash of `s`, or the length
/// of `s` if it has no slash.
pub open spec fn segment_len(s: Seq<char>) -> int
    decreases s.len(),
{
    if s.len() == 0 || s[0] == '/' {
        0
    } else {
        1 + segment_len(s.skip(1))
    }
}

/// The pieces that the slashes of `s` part it into, escapes resolved. There
/// is one piece more than there are slashes, and a piece may be empty.
pub open spec fn split(s: Seq<char>) -> Seq<Seq<char>>
    decreases s.len(),
{
    if segment_len(s) < s.len() {
        proof {
            lemma_segment_len_bound(s);
        }
        seq![unescape(s.take(segment_len(s)))] + split(s.skip(segment_len(s) + 1))
    } else {
        seq![unescape(s)]
    }
}

/// The segments of the text that follows a path's leading slash: none if
/// nothing follows, else the pieces that its slashes part it into.
pub open spec fn segments(s: Seq<char>) -> Seq<Seq<char>> {
    if s.len() == 0 {
        Seq::empty()
    } else {
        split(s)
    }
}

/// Whether `s` has the shape of a path: empty, or starting with a slash.
pub open spec fn is_pointer(s: Seq<char>) -> bool {
    s.len() == 0 || s[0] == '/'
}

/// The segments that the path `s` names, from the root down.
pub open spec fn pointer_segments(s: Seq<char>) -> Seq<Seq<char>> {
    if s.len() == 0 {
        Seq::empty()
    } else {
        segments(s.skip(1))
    }
}

pub proof fn lemma_segment_len_bound(s: Seq<char>)
    ensures
        0 <= segment_len(s) <= s.len(),
        forall|i: int| 0 <= i < segment_len(s) ==> s[i] != '/',
        segment_len(s) < s.len() ==> s[segment_len(s)] == '/',
    decreases s.len(),
{
    if s.len() != 0 && s[0] != '/' {
        lemma_segment_len_bound(s.skip(1));
        assert forall|i: int| 0 <= i < segment_len(s) implies s[i] != '/' by {
            if i > 0 {
                assert(s[i] == s.skip(1)[i - 1]);
            }
        }
    }
}

/// The characters of a string, in order.
pub fn chars_of(s: &str) -> (v: Vec<char>)
    ensures
        v@ == s@,
{
    let mut v: Vec<char> = Vec::new();
    for c in it: s.chars()
        invariant
            v@ == s@.take(it.index() as int),
            it.seq() == s@,
    {
        v.push(c);
    }
    v
}

/// Resolves the escapes in `chars[from..to]`.
fn unescape_range(chars: &Vec<char>, from: usize, to: usize) -> (out: String)
    requires
        from <= to <= chars.len(),
    ensures
        out@ == unescape(chars@.subrange(from as int, to as int)),
{
    let ghost raw = chars@.subrange(from as int, to as int);
    let mut out = String::new();
    let mut i: usize = from;
    assert(raw.skip(0) == raw);
    while i < to
        invariant
            from <= i <= to <= chars.len(),
            raw == chars@.subrange(from as int, to as int),
            unescape(raw) == out@ + unescape(raw.skip(i - from)),
        decreases to - i,
    {
        let ghost rest = raw.skip(i - from);
        assert(rest.len() == to - i);
        assert(rest[0] == chars@[i as int]);
        if chars[i] == '~' && i + 1 < to && (chars[i + 1] == '1' || chars[i + 1] == '0') {
            assert(rest[1] == chars@[i + 1]);
            assert(rest.skip(2) == raw.skip(i + 2 - from));
            if chars[i + 1] == '1' {
                out.push('/');
            } else {
                out.push('~');
            }
            i = i + 2;
        } else {
            assert(rest.skip(1) == raw.skip(i + 1 - from));
            out.push(chars[i]);
            i = i + 1;
        }
    }
    assert(unescape(raw.skip(to - from)) == Seq::<char>::empty());
    out
}

/// A cursor over the segments of a path, front to back.
pub struct JsonPathIterator {
    chars: Vec<char>,
    pos: usize,
    /// Whether a segment is still to come. It may be an empty one, behind a
    /// slash at the very end.
    pending: bool,
}

impl JsonPathIterator {
    #[verifier::type_invariant]
    spec fn in_bounds(&self) -> bool {
        self.pos <= self.chars.len()
    }

    /// The part of the path that has not been read yet: `None` once all
    /// segments are read, else the segments still to come, joined with
    /// slashes.
    pub closed spec fn remaining(&self) -> Option<Seq<char>> {
        if self.pending {
            Some(self.chars@.skip(self.pos as int))
        } else {
            None
        }
    }

    /// The segments still to come.
    pub open spec fn segments_left(&self) -> Seq<Seq<char>> {
        match self.remaining() {
            Some(rest) => split(rest),
            None => Seq::empty(),
        }
    }

    /// Starts reading the path `str` behind its leading slash. The empty
    /// path and the lone slash have no segments; a text that is not empty and
    /// does not start with a slash is no path.
    pub fn new(str: &str) -> (r: Result<JsonPathIterator, PathError>)
        ensures
            match r {
                Ok(it) => {
                    &&& is_pointer(str@)
                    &&& it.segments_left() == pointer_segments(str@)
                    &&& it.remaining() == (if str@.len() <= 1 {
                        None
                    } else {
                        Some(str@.skip(1))
                    })
                },
                Err(e) => !is_pointer(str@) && e == PathError::PathInvalid,
            },
    {
        let chars = chars_of(str);
        if chars.len() > 0 && chars[0] != '/' {
            return Err(PathError::PathInvalid);
        }
        let pending = chars.len() > 1;
        let pos: usize = if chars.len() == 0 { 0 } else { 1 };
        Ok(JsonPathIterator { chars, pos, pending })
    }

    /// Reads the next segment and resolves its escapes; `None` once all
    /// segments are read.
    pub fn next(&mut self) -> (r: Option<String>)
        ensures
            match old(self).remaining() {
                Some(rest) => {
                    &&& r matches Some(segment)
                    &&& segment@ == unescape(rest.take(segment_len(rest)))
                    &&& final(self).remaining() == (if segment_len(rest) < rest.len() {
                        Some(rest.skip(segment_len(rest) + 1))
                    } else {
                        None
                    })
                },
                None => r is None && final(self).remaining() is None,
            },
            old(self).segments_left() == (match r {
                Some(segment) => seq![segment@] + final(self).segments_left(),
                None => Seq::empty(),
            }),
    {
        proof {
            use_type_invariant(&*self);
        }
        if !self.pending {
            return None;
        }
        let n = self.chars.len();
        let start = self.pos;
        let ghost rest = self.chars@.skip(start as int);
        let mut end: usize = start;
        assert(rest.skip(0) == rest);
        while end < n && self.chars[end] != '/'
            invariant
                start <= end <= n,
                n == self.chars.len(),
                rest == self.chars@.skip(start as int),
                segment_len(rest) == (end - start) + segment_len(rest.skip(end - start)),
            decreases n - end,
        {
            assert(rest.skip(end - start)[0] == self.chars@[end as int]);
            assert(rest.skip(end - start).skip(1) == rest.skip(end + 1 - start));
            end = end + 1;
        }
        proof {
            if end < n {
                assert(rest.skip(end - start)[0] == self.chars@[end as int]);
            }
            assert(segment_len(rest) == end - start);
            assert(rest.take(end - start) == self.chars@.subrange(start as int, end as int));
            if end < n {
                assert(rest.skip(end - start + 1) == self.chars@.skip(end + 1));
            } else {
                assert(rest.take(rest.len() as int) == rest);
            }
        }
        let segment = unescape_range(&self.chars, start, end);
        if end < n {
            self.pos = end + 1;
        } else {
            self.pos = n;
            self.pending = false;
        }
        Some(segment)
    }
}

/// The texts of a list of strings.
pub open spec fn texts(v: Seq<String>) -> Seq<Seq<char>> {
    Seq::new(v.len(), |i: int| v[i]@)
}

/// Splits a path into its segments, escapes resolved. The empty path and the
/// lone slash both name the root and give no segment; any other text that
/// does not start with a slash is refused.
pub fn parse(path: &str) -> (r: Result<Vec<String>, PathError>)
    ensures
        match r {
            Ok(found) => is_pointer(path@) && texts(found@) == pointer_segments(path@),
            Err(e) => !is_pointer(path@) && e == PathError::PathInvalid,
        },
{
    let mut it = match JsonPathIterator::new(path) {
        Ok(it) => it,
        Err(e) => {
            return Err(e);
        },
    };
    let mut found: Vec<String> = Vec::new();
    assert(texts(found@) + it.segments_left() == pointer_segments(path@));
    loop
        invariant
            texts(found@) + it.segments_left() == pointer_segments(path@),
        ensures
            texts(found@) == pointer_segments(path@),
        decreases
                (match it.remaining() {
                    Some(rest) => rest.len() + 1,
                    None => 0,
                }),
    {
        proof {
            if let Some(rest) = it.remaining() {
                lemma_segment_len_bound(rest);
            }
        }
        let ghost before = texts(found@);
        match it.next() {
            None => {
                break ;
            },
            Some(segment) => {
                found.push(segment);
                assert(texts(found@) == before + seq![segment@]);
            },
        }
    }
    Ok(found)
}

/// Writes a segment in its escaped form, ready to stand in a path.
pub fn escape_segment(segment: &str) -> (out: String)
    ensures
        out@ == escape(segment@),
{
    let chars = chars_of(segment);
    let mut out = String::new();
    let mut i: usize = 0;
    assert(chars@.skip(0) == chars@);
    while i < chars.len()
        invariant
            i <= chars.len(),
            chars@ == segment@,
            escape(chars@) == out@ + escape(chars@.skip(i as int)),
        decreases chars.len() - i,
    {
        assert(chars@.skip(i as int).skip(1) == chars@.skip(i + 1));
        let c = chars[i];
        if c == '~' {
            out.push('~');
            out.push('0');
        } else if c == '/' {
            out.push('~');
            out.push('1');
        } else {
            out.push(c);
        }
        i = i + 1;
    }
    out
}

/// Escaping a segment and resolving the escapes again gives the segment back.
pub proof fn lemma_unescape_escape(s: Seq<char>)
    ensures
        unescape(escape(s)) == s,
    decreases s.len(),
{
    if s.len() > 0 {
        lemma_unescape_escape(s.skip(1));
        let tail = escape(s.skip(1));
        let e = escape(s);
        if s[0] == '~' || s[0] == '/' {
            assert(e.skip(2) == tail);
        } else {
            // s[0] is no tilde, so it starts no escape
            assert(e.skip(1) == tail);
        }
        assert(s == seq![s[0]] + s.skip(1));
    }
}

/// An escaped segment holds no slash.
pub proof fn lemma_escape_has_no_slash(s: Seq<char>)
    ensures
        segment_len(escape(s)) == escape(s).len(),
    decreases s.len(),
{
    if s.len() > 0 {
        lemma_escape_has_no_slash(s.skip(1));
        let tail = escape(s.skip(1));
        let e = escape(s);
        if s[0] == '~' || s[0] == '/' {
            assert(e.skip(1).skip(1) == tail);
            assert(segment_len(e.skip(1)) == 1 + segment_len(tail));
            assert(segment_len(e) == 1 + segment_len(e.skip(1)));
        } else {
            assert(e.skip(1) == tail);
        }
    }
}

/// Round trip of a segment through a path: for every segment `s` that is not
/// empty, the path made of a slash and the escaped form of `s` parses to `s`
/// alone. (The empty segment is left out: a lone slash names the root.)
pub proof fn lemma_path_round_trip(s: Seq<char>)
    requires
        s.len() > 0,
    ensures
        is_pointer(seq!['/'] + escape(s)),
        pointer_segments(seq!['/'] + escape(s)) == seq![s],
        pointer_segments(seq!['/'] + escape(s)).first() == s,
{
    let e = escape(s);
    let p = seq!['/'] + e;
    assert(p.skip(1) == e);
    lemma_unescape_escape(s);
    lemma_escape_has_no_slash(s);
    assert(e.len() > 0);
}

/// Why a segment does not address an element of a sequence.
#[derive(Clone, Copy, Debug, PartialEq, Eq)]
pub enum IndexError {
    /// The segment is not a non-negative decimal integer.
    NotAnIndex,
    /// The segment is an integer, but the sequence has no such position.
    OutOfRange,
}

pub open spec fn is_digit(c: char) -> bool {
    '0' <= c && c <= '9'
}

pub open spec fn digit_value(c: char) -> nat {
    (c as int - '0' as int) as nat
}

/// The number that a run of decimal digits writes.
pub open spec fn decimal(s: Seq<char>) -> nat
    decreases s.len(),
{
    if s.len() == 0 {
        0
    } else {
        decimal(s.drop_last()) * 10 + digit_value(s.last())
    }
}

/// The digits of an index: the segment without its optional plus sign.
pub open spec fn index_digits(s: Seq<char>) -> Seq<char> {
    if s.len() > 0 && s[0] == '+' {
        s.skip(1)
    } else {
        s
    }
}

/// The index that a segment writes, if it writes one: an optional plus sign,
/// then one or more decimal digits and nothing else. Leading zeros count for
/// nothing.
pub open spec fn index_of(s: Seq<char>) -> Option<nat> {
    let d = index_digits(s);
    if d.len() > 0 && forall|i: int| 0 <= i < d.len() ==> is_digit(#[trigger] d[i]) {
        Some(decimal(d))
    } else {
        None
    }
}

/// Reads `segment` as a position in a sequence of `len` elements.
pub fn index_in(segment: &str, len: usize) -> (r: Result<usize, IndexError>)
    ensures
        r == (match index_of(segment@) {
            None => Err::<usize, IndexError>(IndexError::NotAnIndex),
            Some(n) => if n < len {
                Ok::<usize, IndexError>(n as usize)
            } else {
                Err::<usize, IndexError>(IndexError::OutOfRange)
            },
        }),
{
    let chars = chars_of(segment);
    let start: usize = if chars.len() > 0 && chars[0] == '+' { 1 } else { 0 };
    let ghost d = index_digits(segment@);
    assert(d == chars@.skip(start as int));
    if start == chars.len() {
        return Err(IndexError::NotAnIndex);
    }
    let mut value: usize = 0;
    let mut beyond = false;
    let mut i: usize = start;
    assert(d.take(0) == Seq::<char>::empty());
    while i < chars.len()
        invariant
            start <= i <= chars.len(),
            d == chars@.skip(start as int),
            d == index_digits(segment@),
            forall|j: int| 0 <= j < i - start ==> is_digit(#[trigger] d[j]),
            !beyond ==> value == decimal(d.take(i - start)),
            !beyond && i > start ==> value < len,
            beyond ==> decimal(d.take(i - start)) >= len,
        decreases chars.len() - i,
    {
        let c = chars[i];
        assert(d[i - start] == c);
        if !(c >= '0' && c <= '9') {
            assert(!is_digit(d[i - start]));
            return Err(IndexError::NotAnIndex);
        }
        let digit: u128 = (c as u32 - '0' as u32) as u128;
        proof {
            let next = d.take(i + 1 - start);
            assert(next.drop_last() == d.take(i - start));
            assert(next.last() == c);
            assert(digit == digit_value(c));
        }
        if !beyond {
            let wide: u128 = (value as u128) * 10 + digit;
            if wide >= len as u128 {
                beyond = true;
            } else {
                value = wide as usize;
            }
        }
        i = i + 1;
    }
    assert(d.take(d.len() as int) == d);
    if beyond {
        Err(IndexError::OutOfRange)
    } else {
        Ok(value)
    }
}

} // verus!
