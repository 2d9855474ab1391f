//! The wire parser: one complete value from the front of a byte buffer,
//! with three outcomes — value and consumed length, "need more bytes", or
//! "can never become valid".
//!
//! The grammar is stated by `spec_parse`; the executable parser is proved
//! to agree with it on every input.

use vstd::prelude::*;
use crate::decimal::i64_of_line;
use crate::wire::{Type, TypeV, BULK_MAX, MAX_DEPTH, no_crlf, view_list, rank_list, lemma_view_list_push};
use vstd::utf8::{valid_utf8, decode_utf8};

verus! {

/// Why a buffer can never parse, however many bytes are appended.
#[derive(Debug, PartialEq, Eq, Structural, Clone, Copy)]
pub enum Error {
    /// A Bulk declared more bytes than the protocol's cap allows; carries
    /// the offending length and the cap.
    BulkTooLarge { len: i64, max: u32 },
    /// An integer or length line does not name a signed 64-bit integer.
    InvalidInteger,
    /// An error line is not valid UTF-8.
    InvalidStr,
    /// A byte stands where the grammar allows no such byte.
    Syntax,
    /// Arrays nest deeper than the parser's depth bound.
    DepthExceeded,
}

/// What one parse call reports.
#[derive(Debug, PartialEq)]
pub enum ParseOutcome {
    /// A complete value and how many bytes of the buffer it occupied; the
    /// rest of the buffer is untouched remainder.
    Complete(Type, usize),
    /// The buffer is a valid prefix of some longer encoding; at least this
    /// many more bytes are needed.
    Incomplete(usize),
    /// No extension of the buffer can parse.
    Malformed(Error),
}

/// The mathematical outcome of parsing one value.
pub enum SpecOutcome {
    Value(TypeV, int),
    Incomplete,
    Malformed(Error),
}

/// The mathematical outcome of parsing a run of array elements.
pub enum ElemsOut {
    Items(Seq<TypeV>, int),
    Incomplete,
    Malformed(Error),
}

impl ParseOutcome {
    /// The executable outcome reports exactly the mathematical one.
    pub open spec fn describes(self, s: SpecOutcome) -> bool {
        match self {
            ParseOutcome::Complete(t, n) => s matches SpecOutcome::Value(tv, m) && t@ == tv
                && n as int == m,
            ParseOutcome::Incomplete(h) => s is Incomplete && h >= 1,
            ParseOutcome::Malformed(e) => s matches SpecOutcome::Malformed(e2) && e == e2,
        }
    }
}

/// Index of the first CRLF pair in `s`, if any.
pub open spec fn find_crlf(s: Seq<u8>) -> Option<int>
    decreases s.len(),
{
    if s.len() < 2 {
        Option::None
    } else if s[0] == 13 && s[1] == 10 {
        Option::Some(0)
    } else {
        match find_crlf(s.drop_first()) {
            Option::Some(i) => Option::Some(i + 1),
            Option::None => Option::None,
        }
    }
}

/// What `find_crlf` finds: the first CRLF pair, or none anywhere.
pub proof fn lemma_find_crlf(s: Seq<u8>)
    ensures
        match find_crlf(s) {
            Option::Some(i) => 0 <= i && i + 2 <= s.len() && s[i] == 13 && s[i + 1] == 10
                && forall|j: int| 0 <= j < i ==> !(#[trigger] s[j] == 13 && s[j + 1] == 10),
            Option::None => forall|j: int|
                0 <= j && j + 1 < s.len() ==> !(#[trigger] s[j] == 13 && s[j + 1] == 10),
        },
    decreases s.len(),
{
    if s.len() < 2 {
    } else if s[0] == 13 && s[1] == 10 {
    } else {
        lemma_find_crlf(s.drop_first());
        match find_crlf(s.drop_first()) {
            Option::Some(i) => {
                assert(s[i + 1] == s.drop_first()[i]);
                assert(s[i + 2] == s.drop_first()[i + 1]);
                assert forall|j: int| 0 <= j < i + 1 implies !(#[trigger] s[j] == 13 && s[j + 1]
                    == 10) by {
                    if j > 0 {
                        assert(s.drop_first()[j - 1] == s[j]);
                        assert(s.drop_first()[j] == s[j + 1]);
                    }
                }
            },
            Option::None => {
                assert forall|j: int| 0 <= j && j + 1 < s.len() implies !(#[trigger] s[j] == 13
                    && s[j + 1] == 10) by {
                    if j > 0 {
                        assert(s.drop_first()[j - 1] == s[j]);
                        assert(s.drop_first()[j] == s[j + 1]);
                    }
                }
            },
        }
    }
}

/// A line production: prefix byte, payload, CRLF. The payload and the
/// consumed length, when the terminator has arrived.
pub open spec fn spec_line(s: Seq<u8>) -> Option<(Seq<u8>, int)> {
    match find_crlf(s.drop_first()) {
        Option::Some(i) => Option::Some((s.subrange(1, 1 + i), 3 + i)),
        Option::None => Option::None,
    }
}

/// The `+` production: a status line, its bytes taken verbatim.
pub open spec fn spec_simple(s: Seq<u8>) -> SpecOutcome {
    if s.len() == 0 {
        SpecOutcome::Incomplete
    } else if s[0] != 43 {
        SpecOutcome::Malformed(Error::Syntax)
    } else {
        match spec_line(s) {
            Option::None => SpecOutcome::Incomplete,
            Option::Some((line, n)) => SpecOutcome::Value(TypeV::Simple(line), n),
        }
    }
}

/// The `-` production: an error line, which must decode as UTF-8.
pub open spec fn spec_error(s: Seq<u8>) -> SpecOutcome {
    if s.len() == 0 {
        SpecOutcome::Incomplete
    } else if s[0] != 45 {
        SpecOutcome::Malformed(Error::Syntax)
    } else {
        match spec_line(s) {
            Option::None => SpecOutcome::Incomplete,
            Option::Some((line, n)) => if valid_utf8(line) {
                SpecOutcome::Value(TypeV::Error(decode_utf8(line)), n)
            } else {
                SpecOutcome::Malformed(Error::InvalidStr)
            },
        }
    }
}

/// The `:` production: a signed 64-bit integer line.
pub open spec fn spec_integer(s: Seq<u8>) -> SpecOutcome {
    if s.len() == 0 {
        SpecOutcome::Incomplete
    } else if s[0] != 58 {
        SpecOutcome::Malformed(Error::Syntax)
    } else {
        match spec_line(s) {
            Option::None => SpecOutcome::Incomplete,
            Option::Some((line, n)) => match i64_of_line(line) {
                Option::Some(v) => SpecOutcome::Value(TypeV::Integer(v as int), n),
                Option::None => SpecOutcome::Malformed(Error::InvalidInteger),
            },
        }
    }
}

/// The `$` production: a declared length, then that many raw bytes and
/// CRLF. Length `-1` is the null value; a length beyond the cap is an
/// error even before the payload arrives.
pub open spec fn spec_bulk(s: Seq<u8>) -> SpecOutcome {
    if s.len() == 0 {
        SpecOutcome::Incomplete
    } else if s[0] != 36 {
        SpecOutcome::Malformed(Error::Syntax)
    } else {
        match spec_line(s) {
            Option::None => SpecOutcome::Incomplete,
            Option::Some((line, n)) => match i64_of_line(line) {
                Option::None => SpecOutcome::Malformed(Error::InvalidInteger),
                Option::Some(l) => if l == -1 {
                    SpecOutcome::Value(TypeV::Null, n)
                } else if l < -1 {
                    SpecOutcome::Malformed(Error::Syntax)
                } else if l > BULK_MAX {
                    SpecOutcome::Malformed(Error::BulkTooLarge { len: l, max: BULK_MAX })
                } else {
                    let body = s.skip(n);
                    if body.len() < l + 2 {
                        SpecOutcome::Incomplete
                    } else if body[l as int] == 13 && body[l + 1] == 10 {
                        SpecOutcome::Value(
                            TypeV::Bulk { len: l as nat, data: body.take(l as int) },
                            n + l + 2,
                        )
                    } else {
                        SpecOutcome::Malformed(Error::Syntax)
                    }
                },
            },
        }
    }
}

/// The `*` production: a declared element count, then that many values,
/// each parsed by the same grammar one nesting level down. Count `-1` is
/// the null value; any array needs one level of depth budget.
pub open spec fn spec_array(s: Seq<u8>, depth: nat) -> SpecOutcome
    decreases depth, 0nat, 0nat,
{
    if s.len() == 0 {
        SpecOutcome::Incomplete
    } else if s[0] != 42 {
        SpecOutcome::Malformed(Error::Syntax)
    } else {
        match spec_line(s) {
            Option::None => SpecOutcome::Incomplete,
            Option::Some((line, n)) => match i64_of_line(line) {
                Option::None => SpecOutcome::Malformed(Error::InvalidInteger),
                Option::Some(c) => if c == -1 {
                    SpecOutcome::Value(TypeV::Null, n)
                } else if c < -1 {
                    SpecOutcome::Malformed(Error::Syntax)
                } else if depth == 0 {
                    SpecOutcome::Malformed(Error::DepthExceeded)
                } else if c == 0 {
                    SpecOutcome::Value(TypeV::Array(Seq::empty()), n)
                } else {
                    match spec_elems(s.skip(n), c as nat, (depth - 1) as nat) {
                        ElemsOut::Items(ts, m) => SpecOutcome::Value(TypeV::Array(ts), n + m),
                        ElemsOut::Incomplete => SpecOutcome::Incomplete,
                        ElemsOut::Malformed(e) => SpecOutcome::Malformed(e),
                    }
                },
            },
        }
    }
}

/// One wire value from the front of `s`, following at most `depth` levels
/// of array nesting.
pub open spec fn spec_parse_d(s: Seq<u8>, depth: nat) -> SpecOutcome
    decreases depth, 0nat, 1nat,
{
    if s.len() == 0 {
        SpecOutcome::Incomplete
    } else if s[0] == 43 {
        spec_simple(s)
    } else if s[0] == 45 {
        spec_error(s)
    } else if s[0] == 58 {
        spec_integer(s)
    } else if s[0] == 36 {
        spec_bulk(s)
    } else if s[0] == 42 {
        spec_array(s, depth)
    } else {
        SpecOutcome::Malformed(Error::Syntax)
    }
}

/// `k` consecutive wire values from the front of `s`.
pub open spec fn spec_elems(s: Seq<u8>, k: nat, depth: nat) -> ElemsOut
    decreases depth, 1nat, k,
{
    if k == 0 {
        ElemsOut::Items(Seq::empty(), 0)
    } else {
        match spec_parse_d(s, depth) {
            SpecOutcome::Incomplete => ElemsOut::Incomplete,
            SpecOutcome::Malformed(e) => ElemsOut::Malformed(e),
            SpecOutcome::Value(t, n) => match spec_elems(s.skip(n), (k - 1) as nat, depth) {
                ElemsOut::Incomplete => ElemsOut::Incomplete,
                ElemsOut::Malformed(e) => ElemsOut::Malformed(e),
                ElemsOut::Items(ts, m) => ElemsOut::Items(seq![t] + ts, n + m),
            },
        }
    }
}

/// The grammar: one wire value from the front of `s`, under the parser's
/// fixed depth bound.
pub open spec fn spec_parse(s: Seq<u8>) -> SpecOutcome {
    spec_parse_d(s, MAX_DEPTH as nat)
}

/// A parsed value is well formed, occupies between 3 bytes and the whole
/// buffer, and nests within the depth it was parsed under.
pub proof fn lemma_spec_parse_props(s: Seq<u8>, depth: nat)
    ensures
        spec_parse_d(s, depth) matches SpecOutcome::Value(t, n) ==> {
            &&& 3 <= n <= s.len()
            &&& depth <= MAX_DEPTH ==> t.wf()
            &&& t.rank() <= depth
        },
    decreases depth, 0nat,
{
    if s.len() == 0 {
    } else if s[0] == 43 || s[0] == 45 {
        lemma_find_crlf(s.drop_first());
        match find_crlf(s.drop_first()) {
            Option::Some(i) => {
                let ln = s.subrange(1, 1 + i);
                if s[0] == 45 && valid_utf8(ln) {
                    vstd::utf8::decode_utf8_encode_utf8(ln);
                }
                assert forall|j: int| 0 <= j && j + 1 < ln.len() implies !(#[trigger] ln[j] == 13
                    && ln[j + 1] == 10) by {
                    assert(ln[j] == s.drop_first()[j]);
                    assert(ln[j + 1] == s.drop_first()[j + 1]);
                }
            },
            Option::None => {},
        }
    } else if s[0] == 58 {
        lemma_find_crlf(s.drop_first());
    } else if s[0] == 36 {
        lemma_find_crlf(s.drop_first());
    } else if s[0] == 42 {
        lemma_find_crlf(s.drop_first());
        match spec_line(s) {
            Option::Some((ln, n)) => {
                match i64_of_line(ln) {
                    Option::Some(c) => {
                        if c > 0 && depth > 0 {
                            lemma_spec_elems_props(s.skip(n), c as nat, (depth - 1) as nat);
                        }
                        if c == 0 {
                            assert(rank_list(Seq::<TypeV>::empty()) == 0);
                        }
                    },
                    Option::None => {},
                }
            },
            Option::None => {},
        }
    } else {
    }
}

/// Parsed element runs: as many values as asked, within the buffer, all
/// well formed and within the nesting bound.
pub proof fn lemma_spec_elems_props(s: Seq<u8>, k: nat, depth: nat)
    ensures
        spec_elems(s, k, depth) matches ElemsOut::Items(ts, m) ==> {
            &&& 0 <= m <= s.len()
            &&& ts.len() == k
            &&& depth <= MAX_DEPTH ==> forall|i: int| 0 <= i < ts.len() ==> (#[trigger] ts[i]).wf()
            &&& rank_list(ts) <= depth
        },
    decreases depth, k,
{
    if k == 0 {
        assert(rank_list(Seq::<TypeV>::empty()) == 0);
    } else {
        lemma_spec_parse_props(s, depth);
        match spec_parse_d(s, depth) {
            SpecOutcome::Value(t, n) => {
                lemma_spec_elems_props(s.skip(n), (k - 1) as nat, depth);
                match spec_elems(s.skip(n), (k - 1) as nat, depth) {
                    ElemsOut::Items(ts, m) => {
                        lemma_rank_list_cons(t, ts);
                        assert((seq![t] + ts).len() == k);
                    },
                    _ => {},
                }
            },
            _ => {},
        }
    }
}

/// The rank of a non-empty run is the larger of its head's and its tail's.
pub proof fn lemma_rank_list_cons(t: TypeV, ts: Seq<TypeV>)
    ensures
        rank_list(seq![t] + ts) == if t.rank() > rank_list(ts) {
            t.rank()
        } else {
            rank_list(ts)
        },
{
    let all = seq![t] + ts;
    assert(all[0] == t);
    assert(all.drop_first() =~= ts);
}

/// Prefix an element run with values already parsed.
pub open spec fn elems_join(pre: Seq<TypeV>, c: int, rest: ElemsOut) -> ElemsOut {
    match rest {
        ElemsOut::Items(ts, m) => ElemsOut::Items(pre + ts, c + m),
        ElemsOut::Incomplete => ElemsOut::Incomplete,
        ElemsOut::Malformed(e) => ElemsOut::Malformed(e),
    }
}

/// Joining twice is joining once with the concatenated prefix.
pub proof fn lemma_join_assoc(a: Seq<TypeV>, c0: int, b: Seq<TypeV>, c1: int, rest: ElemsOut)
    ensures
        elems_join(a, c0, elems_join(b, c1, rest)) == elems_join(a + b, c0 + c1, rest),
{
    match rest {
        ElemsOut::Items(ts, m) => {
            assert(a + (b + ts) =~= (a + b) + ts);
        },
        _ => {},
    }
}

/// Find the first CRLF pair at or after `from`; the index returned is
/// absolute.
fn find_crlf_from(input: &[u8], from: usize) -> (r: Option<usize>)
    requires
        from <= input@.len(),
    ensures
        ({
            let t = input@.skip(from as int);
            match r {
                Option::Some(j) => from <= j && j + 1 < input@.len() && find_crlf(t)
                    == Option::Some(j - from as int),
                Option::None => find_crlf(t) is None,
            }
        }),
{
    let ghost t = input@.skip(from as int);
    proof {
        lemma_find_crlf(t);
    }
    let n = input.len();
    if n == 0 {
        return None;
    }
    let mut j = from;
    while j < n - 1
        invariant
            from <= j,
            j <= n,
            n >= 1,
            n == input@.len(),
            from <= n,
            t == input@.skip(from as int),
            forall|p: int| 0 <= p < j - from ==> !(#[trigger] t[p] == 13 && t[p + 1] == 10),
        decreases n - j,
    {
        if *vstd::slice::slice_index_get(input, j) == 13 && *vstd::slice::slice_index_get(
            input,
            j + 1,
        ) == 10 {
            proof {
                lemma_find_crlf(t);
                assert(t[j - from] == 13 && t[j - from + 1] == 10);
            }
            return Some(j);
        }
        proof {
            assert(t[j - from] == input@[j as int]);
            assert(t[j - from + 1] == input@[j + 1]);
        }
        j = j + 1;
    }
    proof {
        lemma_find_crlf(t);
    }
    None
}

/// Copy `input[lo..hi]` into an owned buffer.
fn copy_range(input: &[u8], lo: usize, hi: usize) -> (r: Vec<u8>)
    requires
        lo <= hi <= input@.len(),
    ensures
        r@ == input@.subrange(lo as int, hi as int),
{
    vstd::slice::slice_to_vec(vstd::slice::slice_subrange(input, lo, hi))
}

/// Recognize a `+` status line: the payload verbatim, no decoding.
pub fn simple_str(input: &[u8]) -> (r: ParseOutcome)
    ensures
        r.describes(spec_simple(input@)),
{
    if input.len() == 0 {
        return ParseOutcome::Incomplete(1);
    }
    if *vstd::slice::slice_index_get(input, 0) != 43 {
        return ParseOutcome::Malformed(Error::Syntax);
    }
    match find_crlf_from(input, 1) {
        None => {
            proof {
                assert(input@.skip(1) =~= input@.drop_first());
            }
            ParseOutcome::Incomplete(1)
        },
        Some(j) => {
            proof {
                assert(input@.skip(1) =~= input@.drop_first());
            }
            let data = copy_range(input, 1, j);
            proof {
                assert(input@.subrange(1, j as int) =~= input@.subrange(1, 1 + (j - 1)));
            }
            ParseOutcome::Complete(Type::Simple(data), j + 2)
        },
    }
}

/// Recognize a `-` error line; its payload must decode as UTF-8.
pub fn error(input: &[u8]) -> (r: ParseOutcome)
    ensures
        r.describes(spec_error(input@)),
{
    if input.len() == 0 {
        return ParseOutcome::Incomplete(1);
    }
    if *vstd::slice::slice_index_get(input, 0) != 45 {
        return ParseOutcome::Malformed(Error::Syntax);
    }
    match find_crlf_from(input, 1) {
        None => {
            proof {
                assert(input@.skip(1) =~= input@.drop_first());
            }
            ParseOutcome::Incomplete(1)
        },
        Some(j) => {
            proof {
                assert(input@.skip(1) =~= input@.drop_first());
                assert(input@.subrange(1, j as int) =~= input@.subrange(1, 1 + (j - 1)));
            }
            match crate::text::bytes_to_string(vstd::slice::slice_subrange(input, 1, j)) {
                Some(s) => ParseOutcome::Complete(Type::Error(s), j + 2),
                None => ParseOutcome::Malformed(Error::InvalidStr),
            }
        },
    }
}

/// Recognize a `:` integer line.
pub fn integer(input: &[u8]) -> (r: ParseOutcome)
    ensures
        r.describes(spec_integer(input@)),
{
    if input.len() == 0 {
        return ParseOutcome::Incomplete(1);
    }
    if *vstd::slice::slice_index_get(input, 0) != 58 {
        return ParseOutcome::Malformed(Error::Syntax);
    }
    match find_crlf_from(input, 1) {
        None => {
            proof {
                assert(input@.skip(1) =~= input@.drop_first());
            }
            ParseOutcome::Incomplete(1)
        },
        Some(j) => {
            proof {
                assert(input@.skip(1) =~= input@.drop_first());
                assert(input@.subrange(1, j as int) =~= input@.subrange(1, 1 + (j - 1)));
            }
            match crate::decimal::parse_i64(vstd::slice::slice_subrange(input, 1, j)) {
                Some(v) => ParseOutcome::Complete(Type::Integer(v), j + 2),
                None => ParseOutcome::Malformed(Error::InvalidInteger),
            }
        },
    }
}

/// Recognize a `$` bulk payload: declared length, raw bytes, CRLF.
pub fn bulk(input: &[u8]) -> (r: ParseOutcome)
    ensures
        r.describes(spec_bulk(input@)),
{
    if input.len() == 0 {
        return ParseOutcome::Incomplete(1);
    }
    if *vstd::slice::slice_index_get(input, 0) != 36 {
        return ParseOutcome::Malformed(Error::Syntax);
    }
    match find_crlf_from(input, 1) {
        None => {
            proof {
                assert(input@.skip(1) =~= input@.drop_first());
            }
            ParseOutcome::Incomplete(1)
        },
        Some(j) => {
            proof {
                assert(input@.skip(1) =~= input@.drop_first());
                assert(input@.subrange(1, j as int) =~= input@.subrange(1, 1 + (j - 1)));
            }
            let hdr = j + 2;
            match crate::decimal::parse_i64(vstd::slice::slice_subrange(input, 1, j)) {
                None => ParseOutcome::Malformed(Error::InvalidInteger),
                Some(l) => {
                    if l == -1 {
                        ParseOutcome::Complete(Type::Null, hdr)
                    } else if l < -1 {
                        ParseOutcome::Malformed(Error::Syntax)
                    } else if l > BULK_MAX as i64 {
                        ParseOutcome::Malformed(Error::BulkTooLarge { len: l, max: BULK_MAX })
                    } else {
                        let lu = l as usize;
                        let ghost body = input@.skip(hdr as int);
                        let avail = input.len() - hdr;
                        if avail < lu + 2 {
                            ParseOutcome::Incomplete(lu + 2 - avail)
                        } else {
                            proof {
                                assert(body[l as int] == input@[hdr + lu]);
                                assert(body[l + 1] == input@[hdr + lu + 1]);
                            }
                            if *vstd::slice::slice_index_get(input, hdr + lu) == 13
                                && *vstd::slice::slice_index_get(input, hdr + lu + 1) == 10 {
                                let data = copy_range(input, hdr, hdr + lu);
                                proof {
                                    assert(body.take(l as int) =~= input@.subrange(
                                        hdr as int,
                                        hdr + lu,
                                    ));
                                }
                                ParseOutcome::Complete(
                                    Type::Bulk { len: l as u32, data },
                                    hdr + lu + 2,
                                )
                            } else {
                                ParseOutcome::Malformed(Error::Syntax)
                            }
                        }
                    }
                },
            }
        },
    }
}

/// Recognize a `*` array under a remaining depth budget.
fn array_depth(input: &[u8], depth: u32) -> (r: ParseOutcome)
    ensures
        r.describes(spec_array(input@, depth as nat)),
    decreases depth, 0nat, 0nat,
{
    if input.len() == 0 {
        return ParseOutcome::Incomplete(1);
    }
    if *vstd::slice::slice_index_get(input, 0) != 42 {
        return ParseOutcome::Malformed(Error::Syntax);
    }
    match find_crlf_from(input, 1) {
        None => {
            proof {
                assert(input@.skip(1) =~= input@.drop_first());
            }
            ParseOutcome::Incomplete(1)
        },
        Some(j) => {
            proof {
                assert(input@.skip(1) =~= input@.drop_first());
                assert(input@.subrange(1, j as int) =~= input@.subrange(1, 1 + (j - 1)));
            }
            let hdr = j + 2;
            match crate::decimal::parse_i64(vstd::slice::slice_subrange(input, 1, j)) {
                None => ParseOutcome::Malformed(Error::InvalidInteger),
                Some(c) => {
                    if c == -1 {
                        ParseOutcome::Complete(Type::Null, hdr)
                    } else if c < -1 {
                        ParseOutcome::Malformed(Error::Syntax)
                    } else if depth == 0 {
                        ParseOutcome::Malformed(Error::DepthExceeded)
                    } else if c == 0 {
                        let empty: Vec<Type> = Vec::new();
                        assert(view_list(empty@) =~= Seq::<TypeV>::empty());
                        ParseOutcome::Complete(Type::Array(empty), hdr)
                    } else {
                        let ghost s0 = input@.skip(hdr as int);
                        let ghost d1 = (depth - 1) as nat;
                        let mut elems: Vec<Type> = Vec::new();
                        let mut pos = hdr;
                        let mut k: i64 = 0;
                        assert(view_list(elems@) =~= Seq::<TypeV>::empty());
                        assert(spec_elems(s0, c as nat, d1) == elems_join(
                            view_list(elems@),
                            0,
                            spec_elems(input@.skip(pos as int), (c - k) as nat, d1),
                        ));
                        while k < c
                            invariant
                                0 <= k <= c,
                                c >= 1,
                                depth >= 1,
                                d1 == (depth - 1) as nat,
                                3 <= hdr <= pos <= input@.len(),
                                s0 == input@.skip(hdr as int),
                                input@.len() >= 1,
                                input@[0] == 42,
                                spec_line(input@) == Option::Some((
                                    input@.subrange(1, hdr - 2),
                                    hdr as int,
                                )),
                                i64_of_line(input@.subrange(1, hdr - 2)) == Option::Some(c),
                                spec_elems(s0, c as nat, d1) == elems_join(
                                    view_list(elems@),
                                    pos - hdr,
                                    spec_elems(input@.skip(pos as int), (c - k) as nat, d1),
                                ),
                            decreases c - k,
                        {
                            let sub = vstd::slice::slice_subrange(input, pos, input.len());
                            proof {
                                assert(sub@ =~= input@.skip(pos as int));
                            }
                            let one = parse_depth(sub, depth - 1);
                            match one {
                                ParseOutcome::Incomplete(h) => {
                                    return ParseOutcome::Incomplete(h);
                                },
                                ParseOutcome::Malformed(e) => {
                                    return ParseOutcome::Malformed(e);
                                },
                                ParseOutcome::Complete(t, used) => {
                                    proof {
                                        lemma_spec_parse_props(input@.skip(pos as int), d1);
                                        assert(input@.skip(pos as int).skip(used as int)
                                            =~= input@.skip(pos + used));
                                        lemma_view_list_push(elems@, t);
                                        lemma_join_assoc(
                                            view_list(elems@),
                                            pos - hdr,
                                            seq![t@],
                                            used as int,
                                            spec_elems(
                                                input@.skip(pos + used),
                                                (c - k - 1) as nat,
                                                d1,
                                            ),
                                        );
                                    }
                                    elems.push(t);
                                    pos = pos + used;
                                    k = k + 1;
                                },
                            }
                        }
                        proof {
                            assert(spec_elems(input@.skip(pos as int), 0, d1) == ElemsOut::Items(
                                Seq::empty(),
                                0,
                            ));
                            assert(view_list(elems@) + Seq::<TypeV>::empty() =~= view_list(
                                elems@,
                            ));
                            assert(spec_elems(s0, c as nat, d1) == ElemsOut::Items(
                                view_list(elems@),
                                pos - hdr,
                            ));
                        }
                        ParseOutcome::Complete(Type::Array(elems), pos)
                    }
                },
            }
        },
    }
}

/// Parse one wire value under a remaining depth budget.
fn parse_depth(input: &[u8], depth: u32) -> (r: ParseOutcome)
    ensures
        r.describes(spec_parse_d(input@, depth as nat)),
    decreases depth, 0nat, 1nat,
{
    if input.len() == 0 {
        return ParseOutcome::Incomplete(1);
    }
    let b = *vstd::slice::slice_index_get(input, 0);
    if b == 43 {
        simple_str(input)
    } else if b == 45 {
        error(input)
    } else if b == 58 {
        integer(input)
    } else if b == 36 {
        bulk(input)
    } else if b == 42 {
        array_depth(input, depth)
    } else {
        ParseOutcome::Malformed(Error::Syntax)
    }
}

/// Recognize a `*` array at the parser's full depth budget.
pub fn array(input: &[u8]) -> (r: ParseOutcome)
    ensures
        r.describes(spec_array(input@, MAX_DEPTH as nat)),
{
    array_depth(input, MAX_DEPTH)
}

/// Parse one wire value from the front of `input`.
///
/// Exactly one of three things is reported, as `spec_parse` states: a
/// complete well-formed value with the count of bytes it occupied, a
/// request for more bytes, or a defect no further bytes can repair.
pub fn parse(input: &[u8]) -> (r: ParseOutcome)
    ensures
        r.describes(spec_parse(input@)),
        r matches ParseOutcome::Complete(t, n) ==> t@.wf() && 3 <= n <= input@.len(),
{
    proof {
        lemma_spec_parse_props(input@, MAX_DEPTH as nat);
    }
    parse_depth(input, MAX_DEPTH)
}

} // verus!
