use vstd::prelude::*;
use crate::error::ParseError;

verus! {

/// The first position at or after `from` where `s` holds `b`.
pub open spec fn find_byte(s: Seq<u8>, from: int, b: u8) -> Option<int>
    decreases s.len() - from,
{
    if from < 0 || from >= s.len() {
        None
    } else if s[from] == b {
        Some(from)
    } else {
        find_byte(s, from + 1, b)
    }
}

pub open spec fn opt_pos(o: Option<usize>) -> Option<int> {
    match o {
        Some(i) => Some(i as int),
        None => None,
    }
}

/// A position result seen as a mathematical one.
pub open spec fn pos_res(r: Result<usize, ParseError>) -> Result<int, ParseError> {
    match r {
        Ok(q) => Ok(q as int),
        Err(e) => Err(e),
    }
}

/// A result carrying a value, seen with a mathematical position.
pub open spec fn val_res<T>(r: Result<(usize, T), ParseError>) -> Result<(int, T), ParseError> {
    match r {
        Ok((q, v)) => Ok((q as int, v)),
        Err(e) => Err(e),
    }
}

/// What `find_byte` tells: the position found holds the byte, none before it does.
pub proof fn lemma_find_byte(s: Seq<u8>, from: int, b: u8)
    requires
        0 <= from,
    ensures
        find_byte(s, from, b) matches Some(i) ==> from <= i < s.len() && s[i] == b
            && forall|j: int| from <= j < i ==> s[j] != b,
        find_byte(s, from, b) is None ==> forall|j: int| from <= j < s.len() ==> s[j] != b,
    decreases s.len() - from,
{
    if from < s.len() && s[from] != b {
        lemma_find_byte(s, from + 1, b);
    }
}

/// The first occurrence, once found, is what `find_byte` names.
pub proof fn lemma_find_byte_at(s: Seq<u8>, from: int, b: u8, i: int)
    requires
        0 <= from <= i < s.len(),
        s[i] == b,
        forall|j: int| from <= j < i ==> s[j] != b,
    ensures
        find_byte(s, from, b) == Some(i),
    decreases i - from,
{
    if from < i {
        lemma_find_byte_at(s, from + 1, b, i);
    }
}

/// Without an occurrence, `find_byte` finds nothing.
pub proof fn lemma_find_byte_absent(s: Seq<u8>, from: int, b: u8)
    requires
        0 <= from,
        forall|j: int| from <= j < s.len() ==> s[j] != b,
    ensures
        find_byte(s, from, b) is None,
    decreases s.len() - from,
{
    if from < s.len() {
        lemma_find_byte_absent(s, from + 1, b);
    }
}

/// Reading `n` bytes, where running out of input may still be cured by more bytes.
pub open spec fn spec_take(s: Seq<u8>, p: int, n: int) -> Result<int, ParseError> {
    if p + n <= s.len() {
        Ok(p + n)
    } else {
        Err(ParseError::Incomplete)
    }
}

/// The bytes up to (not including) the next `b`; the result is where `b` stands.
/// Without a `b`, a streaming reader asks for more input, a complete one fails.
pub open spec fn spec_take_until(s: Seq<u8>, p: int, b: u8, streaming: bool) -> Result<
    int,
    ParseError,
> {
    match find_byte(s, p, b) {
        Some(i) => Ok(i),
        None => Err(
            if streaming {
                ParseError::Incomplete
            } else {
                ParseError::Invalid
            },
        ),
    }
}

/// The single byte `c`.
pub open spec fn spec_char(s: Seq<u8>, p: int, c: u8, streaming: bool) -> Result<int, ParseError> {
    if p >= s.len() {
        Err(
            if streaming {
                ParseError::Incomplete
            } else {
                ParseError::Invalid
            },
        )
    } else if s[p] == c {
        Ok(p + 1)
    } else {
        Err(ParseError::Invalid)
    }
}

/// One byte out of `set` (streaming: an empty input asks for more).
pub open spec fn spec_one_of(s: Seq<u8>, p: int, set: Seq<u8>) -> Result<(int, u8), ParseError> {
    if p >= s.len() {
        Err(ParseError::Incomplete)
    } else if set.contains(s[p]) {
        Ok((p + 1, s[p]))
    } else {
        Err(ParseError::Invalid)
    }
}

/// The literal `t`. A streaming reader asks for more input when what is left is
/// a proper prefix of `t`; a complete one fails there.
pub open spec fn spec_tag(s: Seq<u8>, p: int, t: Seq<u8>, streaming: bool) -> Result<
    int,
    ParseError,
> {
    if p + t.len() <= s.len() && s.subrange(p, p + t.len()) == t {
        Ok(p + t.len())
    } else if streaming && s.len() < p + t.len() && s.subrange(p, s.len() as int) == t.take(s.len() - p) {
        Err(ParseError::Incomplete)
    } else {
        Err(ParseError::Invalid)
    }
}

/// An optional item: a mismatch gives `None` and consumes nothing; a need for
/// more input is passed on.
pub open spec fn spec_opt<T>(r: Result<(int, T), ParseError>, p: int) -> Result<
    (int, Option<T>),
    ParseError,
> {
    match r {
        Ok((q, v)) => Ok((q, Some(v))),
        Err(ParseError::Invalid) => Ok((p, None)),
        Err(ParseError::Incomplete) => Err(ParseError::Incomplete),
    }
}

/// An optional literal or byte, of which only the position matters.
pub open spec fn spec_opt_pos(r: Result<int, ParseError>, p: int) -> Result<int, ParseError> {
    match r {
        Ok(q) => Ok(q),
        Err(ParseError::Invalid) => Ok(p),
        Err(ParseError::Incomplete) => Err(ParseError::Incomplete),
    }
}

/// A reader that treats the end of the input as final: a need for more input
/// becomes a mismatch.
pub open spec fn spec_complete<T>(r: Result<T, ParseError>) -> Result<T, ParseError> {
    match r {
        Err(ParseError::Incomplete) => Err(ParseError::Invalid),
        other => other,
    }
}

/// The first position at or after `from` that holds `b`.
pub fn find_byte_from(s: &[u8], from: usize, b: u8) -> (r: Option<usize>)
    requires
        from <= s@.len(),
    ensures
        opt_pos(r) == find_byte(s@, from as int, b),
{
    let len = s.len();
    let mut i = from;
    while i < len
        invariant
            from <= i <= len,
            len == s@.len(),
            find_byte(s@, from as int, b) == find_byte(s@, i as int, b),
        decreases len - i,
    {
        if s[i] == b {
            return Some(i);
        }
        i = i + 1;
    }
    None
}

/// Reads `n` bytes from `p` on; a shorter input asks for more.
pub fn take(s: &[u8], p: usize, n: usize) -> (r: Result<usize, ParseError>)
    requires
        p <= s@.len(),
    ensures
        pos_res(r) == spec_take(s@, p as int, n as int),
{
    if n <= s.len() - p {
        Ok(p + n)
    } else {
        Err(ParseError::Incomplete)
    }
}

/// Reads up to the next `b` and returns where it stands.
pub fn take_until(s: &[u8], p: usize, b: u8, streaming: bool) -> (r: Result<usize, ParseError>)
    requires
        p <= s@.len(),
    ensures
        pos_res(r) == spec_take_until(s@, p as int, b, streaming),
        r matches Ok(q) ==> p <= q < s@.len(),
{
    proof {
        lemma_find_byte(s@, p as int, b);
    }
    match find_byte_from(s, p, b) {
        Some(i) => Ok(i),
        None => if streaming {
            Err(ParseError::Incomplete)
        } else {
            Err(ParseError::Invalid)
        },
    }
}

/// Reads the byte `c`.
pub fn char_at(s: &[u8], p: usize, c: u8, streaming: bool) -> (r: Result<usize, ParseError>)
    requires
        p <= s@.len(),
    ensures
        pos_res(r) == spec_char(s@, p as int, c, streaming),
{
    if p >= s.len() {
        if streaming {
            Err(ParseError::Incomplete)
        } else {
            Err(ParseError::Invalid)
        }
    } else if s[p] == c {
        Ok(p + 1)
    } else {
        Err(ParseError::Invalid)
    }
}

/// Reads one byte out of `set`.
pub fn one_of(s: &[u8], p: usize, set: &[u8]) -> (r: Result<(usize, u8), ParseError>)
    requires
        p <= s@.len(),
    ensures
        val_res(r) == spec_one_of(s@, p as int, set@),
{
    if p >= s.len() {
        return Err(ParseError::Incomplete);
    }
    let x = s[p];
    let next = p + 1;
    let mut k: usize = 0;
    while k < set.len()
        invariant
            k <= set@.len(),
            p < s@.len(),
            next == p + 1,
            x == s@[p as int],
            forall|j: int| 0 <= j < k ==> set@[j] != x,
        decreases set@.len() - k,
    {
        if set[k] == x {
            assert(set@[k as int] == x);
            return Ok((next, x));
        }
        k = k + 1;
    }
    Err(ParseError::Invalid)
}

/// Reads the literal `t`.
pub fn tag(s: &[u8], p: usize, t: &[u8], streaming: bool) -> (r: Result<usize, ParseError>)
    requires
        p <= s@.len(),
    ensures
        pos_res(r) == spec_tag(s@, p as int, t@, streaming),
{
    let len = s.len();
    let mut k: usize = 0;
    while k < t.len() && p + k < len
        invariant
            k <= t@.len(),
            p + k <= len,
            len == s@.len(),
            forall|j: int| 0 <= j < k ==> s@[p + j] == t@[j],
        decreases t@.len() - k,
    {
        if s[p + k] != t[k] {
            proof {
                if p + t@.len() <= s@.len() {
                    assert(s@.subrange(p as int, p + t@.len())[k as int] == s@[p + k]);
                }
                if s@.len() < p + t@.len() {
                    assert(s@.subrange(p as int, s@.len() as int)[k as int] == s@[p + k]);
                    assert(t@.take(s@.len() - p)[k as int] == t@[k as int]);
                }
            }
            return Err(ParseError::Invalid);
        }
        k = k + 1;
    }
    if k == t.len() {
        assert(s@.subrange(p as int, p + t@.len()) =~= t@);
        Ok(p + k)
    } else {
        assert(s@.subrange(p as int, s@.len() as int) =~= t@.take(s@.len() - p));
        assert(!(p + t@.len() <= s@.len()));
        if streaming {
            Err(ParseError::Incomplete)
        } else {
            Err(ParseError::Invalid)
        }
    }
}

/// Makes an item optional: a mismatch gives `None` at `p`.
pub fn opt_val<T>(r: Result<(usize, T), ParseError>, p: usize) -> (o: Result<
    (usize, Option<T>),
    ParseError,
>)
    ensures
        val_res(o) == spec_opt(val_res(r), p as int),
{
    match r {
        Ok((q, v)) => Ok((q, Some(v))),
        Err(ParseError::Invalid) => Ok((p, None)),
        Err(ParseError::Incomplete) => Err(ParseError::Incomplete),
    }
}

/// Makes a byte or literal optional: a mismatch stays at `p`.
pub fn opt_pos_of(r: Result<usize, ParseError>, p: usize) -> (o: Result<usize, ParseError>)
    ensures
        pos_res(o) == spec_opt_pos(pos_res(r), p as int),
{
    match r {
        Ok(q) => Ok(q),
        Err(ParseError::Invalid) => Ok(p),
        Err(ParseError::Incomplete) => Err(ParseError::Incomplete),
    }
}

/// Treats the end of the input as final.
pub fn complete<T>(r: Result<T, ParseError>) -> (o: Result<T, ParseError>)
    ensures
        o == spec_complete(r),
{
    match r {
        Err(ParseError::Incomplete) => Err(ParseError::Invalid),
        other => other,
    }
}

} // verus!
