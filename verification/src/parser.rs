//! Line-protocol grammar: byte-level token recognizers over one record.
//!
//! A record has the shape
//! `measurement[,key=value]* key=value[,key=value]* [timestamp]`,
//! optionally followed by a terminating newline. Every recognizer is a pure
//! function over a byte slice that returns the unconsumed remainder together
//! with the recognized token, borrowing from the input; nothing is copied.

use vstd::prelude::*;
use vstd::slice::{slice_subrange, slice_to_vec};

verus! {

/// The byte `\n`.
pub const NEWLINE: u8 = 10;
/// The byte ` `.
pub const SPACE: u8 = 32;
/// The byte `,`.
pub const COMMA: u8 = 44;
/// The byte `=`.
pub const EQUALS: u8 = 61;
/// The byte `0`.
pub const DIGIT_ZERO: u8 = 48;
/// The byte `9`.
pub const DIGIT_NINE: u8 = 57;

/// A byte that ends any value token: `,`, ` ` or a newline.
pub open spec fn is_term(b: u8) -> bool {
    b == COMMA || b == SPACE || b == NEWLINE
}

/// A byte that ends the measurement token: `,` or ` `.
pub open spec fn is_meas_delim(b: u8) -> bool {
    b == COMMA || b == SPACE
}

/// A byte that ends a key token. A key is closed by `=`; a space or a
/// newline before any `=` means there is no key here at all.
pub open spec fn is_key_end(b: u8) -> bool {
    b == EQUALS || b == SPACE || b == NEWLINE
}

pub open spec fn is_digit(b: u8) -> bool {
    DIGIT_ZERO <= b && b <= DIGIT_NINE
}

/// Splits `s` at the first byte satisfying `d`: returns the (possibly empty)
/// prefix before that byte and the remainder starting with it, or `None`
/// when no byte of `s` satisfies `d`.
pub open spec fn split_at_delim(s: Seq<u8>, d: spec_fn(u8) -> bool) -> Option<(Seq<u8>, Seq<u8>)>
    decreases s.len(),
{
    if s.len() == 0 {
        None
    } else if d(s[0]) {
        Some((Seq::empty(), s))
    } else {
        match split_at_delim(s.drop_first(), d) {
            Some(p) => Some((seq![s[0]] + p.0, p.1)),
            None => None,
        }
    }
}

/// `split_at_delim` succeeds exactly at the first index whose byte satisfies `d`.
pub proof fn lemma_split_at_delim_found(s: Seq<u8>, d: spec_fn(u8) -> bool, i: int)
    requires
        0 <= i < s.len(),
        d(s[i]),
        forall|j: int| 0 <= j < i ==> !d(s[j]),
    ensures
        split_at_delim(s, d) == Some((s.subrange(0, i), s.subrange(i, s.len() as int))),
    decreases i,
{
    if i == 0 {
        assert(s.subrange(0, 0) =~= Seq::<u8>::empty());
        assert(s.subrange(0, s.len() as int) =~= s);
    } else {
        let t = s.drop_first();
        assert(t[i - 1] == s[i]);
        assert(forall|j: int| 0 <= j < i - 1 ==> !d(t[j]));
        lemma_split_at_delim_found(t, d, i - 1);
        assert(seq![s[0]] + t.subrange(0, i - 1) =~= s.subrange(0, i));
        assert(t.subrange(i - 1, t.len() as int) =~= s.subrange(i, s.len() as int));
    }
}

/// `split_at_delim` fails exactly when no byte of `s` satisfies `d`.
pub proof fn lemma_split_at_delim_none(s: Seq<u8>, d: spec_fn(u8) -> bool)
    requires
        forall|j: int| 0 <= j < s.len() ==> !d(s[j]),
    ensures
        split_at_delim(s, d) is None,
    decreases s.len(),
{
    if s.len() > 0 {
        lemma_split_at_delim_none(s.drop_first(), d);
    }
}

/// On success the two parts reassemble the input, the remainder is non-empty,
/// it starts with a delimiter byte, and the prefix holds none.
pub proof fn lemma_split_at_delim_parts(s: Seq<u8>, d: spec_fn(u8) -> bool)
    ensures
        split_at_delim(s, d) matches Some(p) ==> {
            &&& p.0 + p.1 == s
            &&& p.0.len() + p.1.len() == s.len()
            &&& p.1.len() > 0
            &&& d(p.1[0])
            &&& forall|j: int| 0 <= j < p.0.len() ==> !d(p.0[j])
        },
    decreases s.len(),
{
    if s.len() > 0 && !d(s[0]) {
        lemma_split_at_delim_parts(s.drop_first(), d);
        match split_at_delim(s.drop_first(), d) {
            Some(q) => {
                assert(q.0 + q.1 == s.drop_first());
                assert((seq![s[0]] + q.0) + q.1 =~= seq![s[0]] + (q.0 + q.1));
                assert(seq![s[0]] + s.drop_first() =~= s);
            },
            None => {},
        }
    } else if s.len() > 0 && d(s[0]) {
        assert(Seq::<u8>::empty() + s =~= s);
    }
}

/// Splitting a concatenation whose left part holds no delimiter and whose
/// right part starts with one yields exactly those two parts.
pub proof fn lemma_split_at_delim_concat(a: Seq<u8>, b: Seq<u8>, d: spec_fn(u8) -> bool)
    requires
        forall|j: int| 0 <= j < a.len() ==> !d(a[j]),
        b.len() > 0,
        d(b[0]),
    ensures
        split_at_delim(a + b, d) == Some((a, b)),
{
    let s = a + b;
    let i = a.len() as int;
    assert(d(s[i]));
    assert(forall|j: int| 0 <= j < i ==> s[j] == a[j] && !d(s[j]));
    lemma_split_at_delim_found(s, d, i);
    assert(s.subrange(0, i) =~= a);
    assert(s.subrange(i, s.len() as int) =~= b);
}

/// When the split fails, no byte of `s` satisfies `d`.
pub proof fn lemma_split_at_delim_none_inv(s: Seq<u8>, d: spec_fn(u8) -> bool)
    requires
        split_at_delim(s, d) is None,
    ensures
        forall|j: int| 0 <= j < s.len() ==> !d(s[j]),
    decreases s.len(),
{
    if s.len() > 0 {
        lemma_split_at_delim_none_inv(s.drop_first(), d);
        assert(forall|j: int| 1 <= j < s.len() ==> s[j] == s.drop_first()[j - 1]);
    }
}

/// The value token of `until_terminator`, and the remainder beginning with
/// the first `,`, ` ` or newline; `None` when no such byte occurs.
pub open spec fn spec_until_terminator(s: Seq<u8>) -> Option<(Seq<u8>, Seq<u8>)> {
    split_at_delim(s, |b: u8| is_term(b))
}

/// The measurement token and the remainder beginning with the first `,` or
/// ` `; `None` when the record has no such delimiter at all.
pub open spec fn spec_measurement(s: Seq<u8>) -> Option<(Seq<u8>, Seq<u8>)> {
    split_at_delim(s, |b: u8| is_meas_delim(b))
}

/// A key token closed by `=` (the `=` is consumed). A ` ` or newline before
/// any `=`, or exhaustion, means there is no key.
pub open spec fn spec_key(s: Seq<u8>) -> Option<(Seq<u8>, Seq<u8>)> {
    match split_at_delim(s, |b: u8| is_key_end(b)) {
        Some(p) => if p.1[0] == EQUALS {
            Some((p.0, p.1.drop_first()))
        } else {
            None
        },
        None => None,
    }
}

/// A value token: everything up to the next `,`, ` ` or newline, or to the
/// end of the input. Never fails.
pub open spec fn spec_value(s: Seq<u8>) -> (Seq<u8>, Seq<u8>) {
    match split_at_delim(s, |b: u8| is_term(b)) {
        Some(p) => p,
        None => (s, Seq::empty()),
    }
}

/// One `key=value` pair introduced by the byte `lead`.
pub open spec fn spec_pair(s: Seq<u8>, lead: u8) -> Option<((Seq<u8>, Seq<u8>), Seq<u8>)> {
    if s.len() == 0 || s[0] != lead {
        None
    } else {
        match spec_key(s.drop_first()) {
            Some(kr) => {
                let v = spec_value(kr.1);
                Some(((kr.0, v.0), v.1))
            },
            None => None,
        }
    }
}

/// One tag: `,key=value`.
pub open spec fn spec_tag(s: Seq<u8>) -> Option<((Seq<u8>, Seq<u8>), Seq<u8>)> {
    spec_pair(s, COMMA)
}

/// The first field: ` key=value`.
pub open spec fn spec_first_field(s: Seq<u8>) -> Option<((Seq<u8>, Seq<u8>), Seq<u8>)> {
    spec_pair(s, SPACE)
}

/// Zero or more tags, greedily; also the shape of every field after the
/// first, which is likewise `,key=value`. Never fails.
pub open spec fn spec_tags(s: Seq<u8>) -> (Seq<(Seq<u8>, Seq<u8>)>, Seq<u8>)
    decreases s.len(),
{
    match spec_tag(s) {
        Some(tr) => if tr.1.len() < s.len() {
            let rest = spec_tags(tr.1);
            (seq![tr.0] + rest.0, rest.1)
        } else {
            (Seq::empty(), s)
        },
        None => (Seq::empty(), s),
    }
}

/// One mandatory first field, then any further `,key=value` fields.
pub open spec fn spec_fields(s: Seq<u8>) -> Option<(Seq<(Seq<u8>, Seq<u8>)>, Seq<u8>)> {
    match spec_first_field(s) {
        Some(fr) => {
            let o = spec_tags(fr.1);
            Some((seq![fr.0] + o.0, o.1))
        },
        None => None,
    }
}

/// The longest leading run of decimal digits, and what follows it.
pub open spec fn spec_digit_run(s: Seq<u8>) -> (Seq<u8>, Seq<u8>) {
    match split_at_delim(s, |b: u8| !is_digit(b)) {
        Some(p) => p,
        None => (s, Seq::empty()),
    }
}

/// An optional trailing timestamp: a ` ` followed by at least one decimal
/// digit yields the digit run; a lone newline is consumed; anything else
/// leaves the input untouched and yields no timestamp.
pub open spec fn spec_timestamp(s: Seq<u8>) -> (Option<Seq<u8>>, Seq<u8>) {
    if s.len() == 0 {
        (None, s)
    } else if s[0] == NEWLINE {
        (None, s.drop_first())
    } else if s[0] == SPACE && s.len() >= 2 && is_digit(s[1]) {
        let d = spec_digit_run(s.drop_first());
        (Some(d.0), d.1)
    } else {
        (None, s)
    }
}

/// The decoded structure of one record: measurement name, tags and fields in
/// their original order with duplicates preserved, and the optional verbatim
/// timestamp digits.
pub struct Record {
    pub measurement: Seq<u8>,
    pub tags: Seq<(Seq<u8>, Seq<u8>)>,
    pub fields: Seq<(Seq<u8>, Seq<u8>)>,
    pub timestamp: Option<Seq<u8>>,
}

/// Full decode of one record. The measurement delimiter and at least one
/// field are mandatory; after the optional timestamp nothing but a single
/// newline may remain.
pub open spec fn spec_record(s: Seq<u8>) -> Option<Record> {
    match spec_measurement(s) {
        Some(mr) => {
            let t = spec_tags(mr.1);
            match spec_fields(t.1) {
                Some(fr) => {
                    let ts = spec_timestamp(fr.1);
                    if ts.1.len() == 0 || (ts.1.len() == 1 && ts.1[0] == NEWLINE) {
                        Some(
                            Record {
                                measurement: mr.0,
                                tags: t.0,
                                fields: fr.0,
                                timestamp: ts.0,
                            },
                        )
                    } else {
                        None
                    }
                },
                None => None,
            }
        },
        None => None,
    }
}

/// Decomposition of a successful `spec_pair`: the input is exactly the lead
/// byte, the key, `=`, the value and the remainder, the key holds no
/// key-ending byte, the value no terminator, and the remainder is shorter
/// than the input.
pub proof fn lemma_spec_pair_parts(s: Seq<u8>, lead: u8)
    ensures
        spec_pair(s, lead) matches Some(pr) ==> {
            &&& s == seq![lead] + pr.0.0 + seq![EQUALS] + pr.0.1 + pr.1
            &&& pr.1.len() < s.len()
            &&& forall|j: int| 0 <= j < pr.0.0.len() ==> !is_key_end(pr.0.0[j])
            &&& forall|j: int| 0 <= j < pr.0.1.len() ==> !is_term(pr.0.1[j])
            &&& pr.1.len() > 0 ==> is_term(pr.1[0])
        },
{
    if s.len() > 0 && s[0] == lead {
        let t: Seq<u8> = s.drop_first();
        lemma_split_at_delim_parts(t, |b: u8| is_key_end(b));
        match split_at_delim(t, |b: u8| is_key_end(b)) {
            Some(p) => {
                if p.1[0] == EQUALS {
                    let k = p.0;
                    let r = p.1.drop_first();
                    assert(p.1 =~= seq![EQUALS] + r);
                    let v = spec_value(r);
                    lemma_split_at_delim_parts(r, |b: u8| is_term(b));
                    match split_at_delim(r, |b: u8| is_term(b)) {
                        Some(q) => {
                            assert(r == q.0 + q.1);
                        },
                        None => {
                            lemma_split_at_delim_none_inv(r, |b: u8| is_term(b));
                            assert(r + Seq::<u8>::empty() =~= r);
                        },
                    }
                    assert(r == v.0 + v.1);
                    assert(t == k + (seq![EQUALS] + r));
                    assert(seq![lead] + t =~= s);
                    assert(seq![lead] + k + seq![EQUALS] + v.0 + v.1 =~= seq![lead] + (k + (seq![
                        EQUALS,
                    ] + (v.0 + v.1))));
                }
            },
            None => {},
        }
    }
}

/// The view of a vector of borrowed `(key, value)` pairs.
pub open spec fn pairs_view(v: Seq<(&[u8], &[u8])>) -> Seq<(Seq<u8>, Seq<u8>)> {
    v.map_values(|p: (&[u8], &[u8])| (p.0@, p.1@))
}

fn term_byte(b: u8) -> (r: bool)
    ensures
        r == is_term(b),
{
    b == COMMA || b == SPACE || b == NEWLINE
}

fn meas_delim_byte(b: u8) -> (r: bool)
    ensures
        r == is_meas_delim(b),
{
    b == COMMA || b == SPACE
}

fn key_end_byte(b: u8) -> (r: bool)
    ensures
        r == is_key_end(b),
{
    b == EQUALS || b == SPACE || b == NEWLINE
}

fn digit_byte(b: u8) -> (r: bool)
    ensures
        r == is_digit(b),
{
    DIGIT_ZERO <= b && b <= DIGIT_NINE
}

/// Index of the first terminator byte, if any.
fn find_term(input: &[u8]) -> (r: Option<usize>)
    ensures
        match r {
            Some(i) => i < input@.len() && is_term(input@[i as int]) && forall|j: int|
                0 <= j < i ==> !is_term(input@[j]),
            None => forall|j: int| 0 <= j < input@.len() ==> !is_term(input@[j]),
        },
{
    let mut i: usize = 0;
    while i < input.len()
        invariant
            i <= input@.len(),
            forall|j: int| 0 <= j < i ==> !is_term(input@[j]),
        decreases input@.len() - i,
    {
        if term_byte(input[i]) {
            return Some(i);
        }
        i = i + 1;
    }
    None
}

/// Index of the first measurement delimiter, if any.
fn find_meas_delim(input: &[u8]) -> (r: Option<usize>)
    ensures
        match r {
            Some(i) => i < input@.len() && is_meas_delim(input@[i as int]) && forall|j: int|
                0 <= j < i ==> !is_meas_delim(input@[j]),
            None => forall|j: int| 0 <= j < input@.len() ==> !is_meas_delim(input@[j]),
        },
{
    let mut i: usize = 0;
    while i < input.len()
        invariant
            i <= input@.len(),
            forall|j: int| 0 <= j < i ==> !is_meas_delim(input@[j]),
        decreases input@.len() - i,
    {
        if meas_delim_byte(input[i]) {
            return Some(i);
        }
        i = i + 1;
    }
    None
}

/// Index of the first key-ending byte, if any.
fn find_key_end(input: &[u8]) -> (r: Option<usize>)
    ensures
        match r {
            Some(i) => i < input@.len() && is_key_end(input@[i as int]) && forall|j: int|
                0 <= j < i ==> !is_key_end(input@[j]),
            None => forall|j: int| 0 <= j < input@.len() ==> !is_key_end(input@[j]),
        },
{
    let mut i: usize = 0;
    while i < input.len()
        invariant
            i <= input@.len(),
            forall|j: int| 0 <= j < i ==> !is_key_end(input@[j]),
        decreases input@.len() - i,
    {
        if key_end_byte(input[i]) {
            return Some(i);
        }
        i = i + 1;
    }
    None
}

/// Index of the first byte that is not a decimal digit, if any.
fn find_non_digit(input: &[u8]) -> (r: Option<usize>)
    ensures
        match r {
            Some(i) => i < input@.len() && !is_digit(input@[i as int]) && forall|j: int|
                0 <= j < i ==> is_digit(input@[j]),
            None => forall|j: int| 0 <= j < input@.len() ==> is_digit(input@[j]),
        },
{
    let mut i: usize = 0;
    while i < input.len()
        invariant
            i <= input@.len(),
            forall|j: int| 0 <= j < i ==> is_digit(input@[j]),
        decreases input@.len() - i,
    {
        if !digit_byte(input[i]) {
            return Some(i);
        }
        i = i + 1;
    }
    None
}

/// The bytes before the first `,`, ` ` or newline, with the remainder
/// starting at that delimiter; `None` when the input holds none.
pub fn until_terminator<'a>(input: &'a [u8]) -> (r: Option<(&'a [u8], &'a [u8])>)
    ensures
        match r {
            Some(p) => spec_until_terminator(input@) == Some((p.1@, p.0@)),
            None => spec_until_terminator(input@) is None,
        },
{
    match find_term(input) {
        Some(i) => {
            proof {
                lemma_split_at_delim_found(input@, |b: u8| is_term(b), i as int);
            }
            let val = slice_subrange(input, 0, i);
            let rem = slice_subrange(input, i, input.len());
            Some((rem, val))
        },
        None => {
            proof {
                lemma_split_at_delim_none(input@, |b: u8| is_term(b));
            }
            None
        },
    }
}

/// The measurement token: the bytes before the first `,` or ` `, with the
/// remainder starting at that delimiter; `None` when neither occurs.
pub fn measurement<'a>(input: &'a [u8]) -> (r: Option<(&'a [u8], &'a [u8])>)
    ensures
        match r {
            Some(p) => spec_measurement(input@) == Some((p.1@, p.0@)),
            None => spec_measurement(input@) is None,
        },
{
    match find_meas_delim(input) {
        Some(i) => {
            proof {
                lemma_split_at_delim_found(input@, |b: u8| is_meas_delim(b), i as int);
            }
            let val = slice_subrange(input, 0, i);
            let rem = slice_subrange(input, i, input.len());
            Some((rem, val))
        },
        None => {
            proof {
                lemma_split_at_delim_none(input@, |b: u8| is_meas_delim(b));
            }
            None
        },
    }
}

/// The measurement name of a whole record, with the rest of the record.
pub fn get_measurement_name<'a>(input: &'a [u8]) -> (r: Option<(&'a [u8], &'a [u8])>)
    ensures
        match r {
            Some(p) => spec_measurement(input@) == Some((p.1@, p.0@)),
            None => spec_measurement(input@) is None,
        },
{
    measurement(input)
}

/// A key closed by `=`, which is consumed; `None` when a ` ` or newline
/// comes first or the input runs out.
pub fn field_name<'a>(input: &'a [u8]) -> (r: Option<(&'a [u8], &'a [u8])>)
    ensures
        match r {
            Some(p) => spec_key(input@) == Some((p.1@, p.0@)),
            None => spec_key(input@) is None,
        },
{
    match find_key_end(input) {
        Some(i) => {
            proof {
                lemma_split_at_delim_found(input@, |b: u8| is_key_end(b), i as int);
            }
            if input[i] == EQUALS {
                let val = slice_subrange(input, 0, i);
                let rem = slice_subrange(input, i + 1, input.len());
                proof {
                    assert(input@.subrange(i as int, input@.len() as int).drop_first()
                        =~= input@.subrange(i as int + 1, input@.len() as int));
                }
                Some((rem, val))
            } else {
                None
            }
        },
        None => {
            proof {
                lemma_split_at_delim_none(input@, |b: u8| is_key_end(b));
            }
            None
        },
    }
}

/// A key preceded by one ` ` or `,` delimiter; the delimiter and the
/// closing `=` are consumed.
pub fn delimiter_to_equal_sign<'a>(input: &'a [u8]) -> (r: Option<(&'a [u8], &'a [u8])>)
    ensures
        match r {
            Some(p) => input@.len() > 0 && is_meas_delim(input@[0]) && spec_key(
                input@.drop_first(),
            ) == Some((p.1@, p.0@)),
            None => input@.len() == 0 || !is_meas_delim(input@[0]) || spec_key(
                input@.drop_first(),
            ) is None,
        },
{
    if input.len() == 0 {
        return None;
    }
    if input[0] != COMMA && input[0] != SPACE {
        return None;
    }
    let rest = slice_subrange(input, 1, input.len());
    proof {
        assert(rest@ =~= input@.drop_first());
    }
    field_name(rest)
}

/// A value: everything before the next `,`, ` ` or newline, or the whole
/// input when none occurs. Never fails.
pub fn field_value<'a>(input: &'a [u8]) -> (r: (&'a [u8], &'a [u8]))
    ensures
        spec_value(input@) == (r.1@, r.0@),
{
    match find_term(input) {
        Some(i) => {
            proof {
                lemma_split_at_delim_found(input@, |b: u8| is_term(b), i as int);
            }
            let val = slice_subrange(input, 0, i);
            let rem = slice_subrange(input, i, input.len());
            (rem, val)
        },
        None => {
            proof {
                lemma_split_at_delim_none(input@, |b: u8| is_term(b));
            }
            let rem = slice_subrange(input, input.len(), input.len());
            proof {
                assert(rem@ =~= Seq::<u8>::empty());
            }
            (rem, input)
        },
    }
}

/// One `key=value` pair introduced by `lead`.
fn pair_with_lead<'a>(input: &'a [u8], lead: u8) -> (r: Option<(&'a [u8], (&'a [u8], &'a [u8]))>)
    ensures
        match r {
            Some(p) => spec_pair(input@, lead) == Some((((p.1.0)@, (p.1.1)@), p.0@)),
            None => spec_pair(input@, lead) is None,
        },
{
    if input.len() == 0 || input[0] != lead {
        return None;
    }
    let rest = slice_subrange(input, 1, input.len());
    proof {
        assert(rest@ =~= input@.drop_first());
    }
    match field_name(rest) {
        Some((r1, key)) => {
            let (r2, val) = field_value(r1);
            Some((r2, (key, val)))
        },
        None => None,
    }
}

/// One tag `,key=value`.
pub fn tag<'a>(input: &'a [u8]) -> (r: Option<(&'a [u8], (&'a [u8], &'a [u8]))>)
    ensures
        match r {
            Some(p) => spec_tag(input@) == Some((((p.1.0)@, (p.1.1)@), p.0@)),
            None => spec_tag(input@) is None,
        },
{
    pair_with_lead(input, COMMA)
}

/// The first field ` key=value`.
pub fn first_field<'a>(input: &'a [u8]) -> (r: Option<(&'a [u8], (&'a [u8], &'a [u8]))>)
    ensures
        match r {
            Some(p) => spec_first_field(input@) == Some((((p.1.0)@, (p.1.1)@), p.0@)),
            None => spec_first_field(input@) is None,
        },
{
    pair_with_lead(input, SPACE)
}

/// Zero or more tags, greedily. Never fails; the remainder begins at the
/// first byte that does not continue a `,key=value` repetition.
pub fn tags<'a>(input: &'a [u8]) -> (r: (&'a [u8], Vec<(&'a [u8], &'a [u8])>))
    ensures
        pairs_view(r.1@) == spec_tags(input@).0,
        r.0@ == spec_tags(input@).1,
{
    let mut rest: &[u8] = input;
    let mut out: Vec<(&[u8], &[u8])> = Vec::new();
    loop
        invariant
            spec_tags(input@).0 == pairs_view(out@) + spec_tags(rest@).0,
            spec_tags(input@).1 == spec_tags(rest@).1,
        decreases rest@.len(),
    {
        match tag(rest) {
            Some((r2, t)) => {
                proof {
                    lemma_spec_pair_parts(rest@, COMMA);
                    assert(pairs_view(out@.push(t)) =~= pairs_view(out@) + seq![
                        ((t.0)@, (t.1)@),
                    ]);
                    assert(pairs_view(out@) + (seq![((t.0)@, (t.1)@)] + spec_tags(r2@).0)
                        =~= (pairs_view(out@) + seq![((t.0)@, (t.1)@)]) + spec_tags(r2@).0);
                }
                out.push(t);
                rest = r2;
            },
            None => {
                proof {
                    assert(pairs_view(out@) + Seq::<(Seq<u8>, Seq<u8>)>::empty()
                        =~= pairs_view(out@));
                }
                return (rest, out);
            },
        }
    }
}

/// The whole field list: one mandatory first field, then any number of
/// further `,key=value` fields; `None` when the first field is missing.
pub fn fields<'a>(input: &'a [u8]) -> (r: Option<(&'a [u8], Vec<(&'a [u8], &'a [u8])>)>)
    ensures
        match r {
            Some(p) => spec_fields(input@) matches Some(f) && pairs_view(p.1@) == f.0 && p.0@
                == f.1,
            None => spec_fields(input@) is None,
        },
{
    match first_field(input) {
        Some((r1, ff)) => {
            let (r2, mut others) = tags(r1);
            let ghost others0 = others@;
            let mut all: Vec<(&[u8], &[u8])> = Vec::new();
            all.push(ff);
            all.append(&mut others);
            proof {
                assert(pairs_view(all@) =~= seq![(((ff.0)@, (ff.1)@))] + pairs_view(others0));
            }
            Some((r2, all))
        },
        None => None,
    }
}

/// The optional trailing timestamp: a ` ` followed by at least one decimal
/// digit yields the digit run; a lone newline is consumed; anything else is
/// left untouched with no timestamp.
pub fn get_timestamp<'a>(input: &'a [u8]) -> (r: (&'a [u8], Option<&'a [u8]>))
    ensures
        r.0@ == spec_timestamp(input@).1,
        match r.1 {
            Some(d) => spec_timestamp(input@).0 == Some(d@),
            None => spec_timestamp(input@).0 is None,
        },
{
    if input.len() == 0 {
        return (input, None);
    }
    if input[0] == NEWLINE {
        let rem = slice_subrange(input, 1, input.len());
        proof {
            assert(rem@ =~= input@.drop_first());
        }
        return (rem, None);
    }
    if input[0] == SPACE && input.len() >= 2 && digit_byte(input[1]) {
        let rest = slice_subrange(input, 1, input.len());
        proof {
            assert(rest@ =~= input@.drop_first());
        }
        match find_non_digit(rest) {
            Some(i) => {
                proof {
                    lemma_split_at_delim_found(rest@, |b: u8| !is_digit(b), i as int);
                }
                let digits = slice_subrange(rest, 0, i);
                let rem = slice_subrange(rest, i, rest.len());
                (rem, Some(digits))
            },
            None => {
                proof {
                    lemma_split_at_delim_none(rest@, |b: u8| !is_digit(b));
                }
                let rem = slice_subrange(rest, rest.len(), rest.len());
                proof {
                    assert(rem@ =~= Seq::<u8>::empty());
                }
                (rem, Some(rest))
            },
        }
    } else {
        (input, None)
    }
}

/// One `key=value` pair with an optional leading `,`, as a free-standing
/// recognizer; the value ends at the next delimiter or at the end of input.
pub open spec fn spec_field(s: Seq<u8>) -> Option<((Seq<u8>, Seq<u8>), Seq<u8>)> {
    let t = if s.len() > 0 && s[0] == COMMA {
        s.drop_first()
    } else {
        s
    };
    match spec_key(t) {
        Some(kr) => {
            let v = spec_value(kr.1);
            Some(((kr.0, v.0), v.1))
        },
        None => None,
    }
}

/// One `key=value` pair, tolerating one leading `,`.
pub fn field<'a>(input: &'a [u8]) -> (r: Option<(&'a [u8], (&'a [u8], &'a [u8]))>)
    ensures
        match r {
            Some(p) => spec_field(input@) == Some((((p.1.0)@, (p.1.1)@), p.0@)),
            None => spec_field(input@) is None,
        },
{
    let rest: &[u8] = if input.len() > 0 && input[0] == COMMA {
        let t = slice_subrange(input, 1, input.len());
        proof {
            assert(t@ =~= input@.drop_first());
        }
        t
    } else {
        input
    };
    match field_name(rest) {
        Some((r1, key)) => {
            let (r2, val) = field_value(r1);
            Some((r2, (key, val)))
        },
        None => None,
    }
}

/// The zero-copy decoded form of one record: every slice borrows from the
/// line it was decoded from.
pub struct Metric<'a> {
    pub measurement: &'a [u8],
    pub tags: Vec<(&'a [u8], &'a [u8])>,
    pub fields: Vec<(&'a [u8], &'a [u8])>,
    pub timestamp: Option<&'a [u8]>,
}

impl<'a> View for Metric<'a> {
    type V = Record;

    open spec fn view(&self) -> Record {
        Record {
            measurement: self.measurement@,
            tags: pairs_view(self.tags@),
            fields: pairs_view(self.fields@),
            timestamp: match self.timestamp {
                Some(d) => Some(d@),
                None => None,
            },
        }
    }
}

/// The view of a vector of owned `(key, value)` pairs.
pub open spec fn owned_pairs_view(v: Seq<(Vec<u8>, Vec<u8>)>) -> Seq<(Seq<u8>, Seq<u8>)> {
    v.map_values(|p: (Vec<u8>, Vec<u8>)| (p.0@, p.1@))
}

/// The owned decoded form of one record.
pub struct Line {
    pub measurement: Vec<u8>,
    pub tags: Vec<(Vec<u8>, Vec<u8>)>,
    pub fields: Vec<(Vec<u8>, Vec<u8>)>,
    pub timestamp: Option<Vec<u8>>,
}

impl View for Line {
    type V = Record;

    open spec fn view(&self) -> Record {
        Record {
            measurement: self.measurement@,
            tags: owned_pairs_view(self.tags@),
            fields: owned_pairs_view(self.fields@),
            timestamp: match self.timestamp {
                Some(d) => Some(d@),
                None => None,
            },
        }
    }
}

/// Decodes one whole record without copying; `None` exactly when the record
/// is malformed: no measurement delimiter, no first field, or trailing bytes
/// that are not a single newline.
pub fn decode<'a>(input: &'a [u8]) -> (r: Option<Metric<'a>>)
    ensures
        match r {
            Some(m) => spec_record(input@) == Some(m@),
            None => spec_record(input@) is None,
        },
{
    match measurement(input) {
        Some((r1, name)) => {
            let (r2, tg) = tags(r1);
            match fields(r2) {
                Some((r3, fs)) => {
                    let (r4, ts) = get_timestamp(r3);
                    if r4.len() == 0 || (r4.len() == 1 && r4[0] == NEWLINE) {
                        Some(Metric { measurement: name, tags: tg, fields: fs, timestamp: ts })
                    } else {
                        None
                    }
                },
                None => None,
            }
        },
        None => None,
    }
}

fn to_owned_pairs(v: &Vec<(&[u8], &[u8])>) -> (r: Vec<(Vec<u8>, Vec<u8>)>)
    ensures
        owned_pairs_view(r@) == pairs_view(v@),
{
    let mut out: Vec<(Vec<u8>, Vec<u8>)> = Vec::new();
    let mut i: usize = 0;
    while i < v.len()
        invariant
            i <= v@.len(),
            out@.len() == i,
            forall|j: int|
                0 <= j < i ==> (#[trigger] out@[j]).0@ == v@[j].0@ && out@[j].1@ == v@[j].1@,
        decreases v@.len() - i,
    {
        let (k, val) = v[i];
        out.push((slice_to_vec(k), slice_to_vec(val)));
        i = i + 1;
    }
    proof {
        assert(owned_pairs_view(out@) =~= pairs_view(v@));
    }
    out
}

/// Decodes one whole record into an owned `Line`; `None` exactly when the
/// record is malformed.
pub fn parse(stream: &[u8]) -> (r: Option<Line>)
    ensures
        match r {
            Some(l) => spec_record(stream@) == Some(l@),
            None => spec_record(stream@) is None,
        },
{
    match decode(stream) {
        Some(m) => {
            let timestamp = match m.timestamp {
                Some(d) => Some(slice_to_vec(d)),
                None => None,
            };
            Some(
                Line {
                    measurement: slice_to_vec(m.measurement),
                    tags: to_owned_pairs(&m.tags),
                    fields: to_owned_pairs(&m.fields),
                    timestamp,
                },
            )
        },
        None => None,
    }
}

} // verus!
