//! Frame Reader: turns a stream of arbitrarily fragmented byte chunks into
//! complete newline-terminated lines.
//!
//! Fragments are buffered in arrival order; each call of `read_line` emits
//! at most one complete line, assembled into one contiguous buffer with the
//! terminator removed, and consumes exactly the emitted bytes plus the
//! terminator. Pulling further fragments from the source, and deciding what
//! to do when none is ready, is the caller's loop: when no terminator is
//! buffered, `read_line` returns `None` and leaves the buffer untouched, and
//! the caller either pushes the next fragment and retries, or — at
//! end-of-data — drops the reader, discarding any unterminated tail.

use vstd::prelude::*;
use vstd::seq_lib::lemma_flatten_concat;
use vstd::slice::{slice_subrange, slice_to_vec};
use std::collections::VecDeque;

use crate::bytebuf::{buf_extend, buf_freeze, buf_with_capacity, bytes_data};
use crate::parser::{
    lemma_split_at_delim_concat, lemma_split_at_delim_none, lemma_split_at_delim_none_inv,
    lemma_split_at_delim_parts, split_at_delim, NEWLINE,
};

verus! {

pub open spec fn is_newline(b: u8) -> bool {
    b == NEWLINE
}

pub open spec fn no_newline(s: Seq<u8>) -> bool {
    forall|j: int| 0 <= j < s.len() ==> s[j] != NEWLINE
}

/// The first complete line of `s` — the bytes before the first newline —
/// and everything after that newline; `None` when `s` holds no newline.
pub open spec fn split_line(s: Seq<u8>) -> Option<(Seq<u8>, Seq<u8>)> {
    match split_at_delim(s, |b: u8| is_newline(b)) {
        Some(p) => Some((p.0, p.1.drop_first())),
        None => None,
    }
}

/// All complete lines of `s` in order, each without its terminator. Bytes
/// after the last newline — an unterminated tail — appear in no line.
pub open spec fn lines_of(s: Seq<u8>) -> Seq<Seq<u8>>
    decreases s.len(),
{
    match split_line(s) {
        Some(p) => if p.1.len() < s.len() {
            seq![p.0] + lines_of(p.1)
        } else {
            seq![p.0]
        },
        None => Seq::empty(),
    }
}

/// How `split_line` decomposes its input, and how `lines_of` unfolds along
/// it.
pub proof fn lemma_split_line_parts(s: Seq<u8>)
    ensures
        split_line(s) matches Some(p) ==> {
            &&& s == p.0 + seq![NEWLINE] + p.1
            &&& no_newline(p.0)
            &&& p.1.len() < s.len()
            &&& lines_of(s) == seq![p.0] + lines_of(p.1)
        },
        split_line(s) is None ==> no_newline(s) && lines_of(s) == Seq::<Seq<u8>>::empty(),
{
    lemma_split_at_delim_parts(s, |b: u8| is_newline(b));
    match split_at_delim(s, |b: u8| is_newline(b)) {
        Some(q) => {
            assert(q.1 =~= seq![NEWLINE] + q.1.drop_first());
            assert((q.0 + seq![NEWLINE]) + q.1.drop_first() =~= q.0 + (seq![NEWLINE]
                + q.1.drop_first()));
        },
        None => {
            lemma_split_at_delim_none_inv(s, |b: u8| is_newline(b));
        },
    }
}

/// Splitting at a known decomposition: a newline right after a prefix that
/// holds none yields exactly that prefix and the bytes after the newline.
pub proof fn lemma_split_line_at(a: Seq<u8>, rest: Seq<u8>)
    requires
        no_newline(a),
    ensures
        split_line(a + seq![NEWLINE] + rest) == Some((a, rest)),
{
    let s = a + seq![NEWLINE] + rest;
    assert(s =~= a + (seq![NEWLINE] + rest));
    lemma_split_at_delim_concat(a, seq![NEWLINE] + rest, |b: u8| is_newline(b));
    assert((seq![NEWLINE] + rest).drop_first() =~= rest);
}

/// The views of the queued fragments.
pub open spec fn frags_view(items: Seq<Vec<u8>>) -> Seq<Seq<u8>> {
    items.map_values(|v: Vec<u8>| v@)
}

/// What remains of `s` after every complete line is consumed: the bytes
/// after the last newline.
pub open spec fn unterminated_tail(s: Seq<u8>) -> Seq<u8>
    decreases s.len(),
{
    match split_line(s) {
        Some(p) => if p.1.len() < s.len() {
            unterminated_tail(p.1)
        } else {
            s
        },
        None => s,
    }
}

/// How `unterminated_tail` unfolds along `split_line`.
pub proof fn lemma_unterminated_tail_step(s: Seq<u8>)
    ensures
        split_line(s) matches Some(p) ==> unterminated_tail(s) == unterminated_tail(p.1),
        split_line(s) is None ==> unterminated_tail(s) == s,
{
    lemma_split_line_parts(s);
}

/// A byte stream made of newline-terminated lines followed by an
/// unterminated tail.
pub open spec fn terminated_stream(ls: Seq<Seq<u8>>, tail: Seq<u8>) -> Seq<u8> {
    ls.map_values(|l: Seq<u8>| l + seq![NEWLINE]).flatten() + tail
}

/// LAW (framing correctness): a byte stream that is the concatenation of
/// newline-terminated lines plus at most one unterminated tail frames back
/// to exactly those lines, in order, and the tail is never emitted. Since
/// `lines_of` sees only the concatenated bytes, the framing is invariant
/// under any re-fragmentation of the same stream.
pub proof fn lemma_framing_correct(ls: Seq<Seq<u8>>, tail: Seq<u8>)
    requires
        forall|i: int| 0 <= i < ls.len() ==> no_newline(#[trigger] ls[i]),
        no_newline(tail),
    ensures
        lines_of(terminated_stream(ls, tail)) == ls,
    decreases ls.len(),
{
    let m = ls.map_values(|l: Seq<u8>| l + seq![NEWLINE]);
    if ls.len() == 0 {
        assert(m.flatten() + tail =~= tail);
        lemma_split_at_delim_none(tail, |b: u8| is_newline(b));
        assert(lines_of(tail) =~= Seq::<Seq<u8>>::empty());
    } else {
        let s = terminated_stream(ls, tail);
        let m2 = ls.drop_first().map_values(|l: Seq<u8>| l + seq![NEWLINE]);
        assert(m.drop_first() =~= m2);
        assert(m[0] == ls[0] + seq![NEWLINE]);
        assert(m.flatten() == m[0] + m.drop_first().flatten());
        let rest = m2.flatten() + tail;
        assert(s =~= ls[0] + seq![NEWLINE] + rest);
        lemma_split_line_at(ls[0], rest);
        lemma_split_line_parts(s);
        assert(forall|i: int|
            0 <= i < ls.drop_first().len() ==> no_newline(#[trigger] ls.drop_first()[i]));
        lemma_framing_correct(ls.drop_first(), tail);
        assert(seq![ls[0]] + ls.drop_first() =~= ls);
    }
}

proof fn lemma_flatten_split(frags: Seq<Seq<u8>>, k: int)
    requires
        0 <= k <= frags.len(),
    ensures
        frags.flatten() == frags.take(k).flatten() + frags.skip(k).flatten(),
{
    assert(frags.take(k) + frags.skip(k) =~= frags);
    lemma_flatten_concat(frags.take(k), frags.skip(k));
}

proof fn lemma_no_newline_flatten(frags: Seq<Seq<u8>>)
    requires
        forall|k: int| 0 <= k < frags.len() ==> no_newline(#[trigger] frags[k]),
    ensures
        no_newline(frags.flatten()),
    decreases frags.len(),
{
    if frags.len() > 0 {
        assert(forall|k: int|
            0 <= k < frags.drop_first().len() ==> no_newline(
                #[trigger] frags.drop_first()[k],
            ));
        lemma_no_newline_flatten(frags.drop_first());
        assert(frags[0] == frags.first());
        assert forall|j: int| 0 <= j < frags.flatten().len() implies frags.flatten()[j]
            != NEWLINE by {
            if j < frags.first().len() {
                assert(frags.flatten()[j] == frags.first()[j]);
            } else {
                assert(frags.flatten()[j] == frags.drop_first().flatten()[j
                    - frags.first().len()]);
            }
        }
    }
}

/// Buffers byte fragments and yields one complete line per call.
pub struct Reader {
    len: usize,
    items: VecDeque<Vec<u8>>,
}

impl Reader {
    /// All bytes currently buffered, in arrival order.
    pub closed spec fn buffered(&self) -> Seq<u8> {
        frags_view(self.items@).flatten()
    }

    /// The running byte count agrees with the buffered fragments.
    pub closed spec fn well_formed(&self) -> bool {
        self.len == self.buffered().len()
    }

    /// A fresh reader buffers nothing.
    pub fn new() -> (r: Reader)
        ensures
            r.well_formed(),
            r.buffered() == Seq::<u8>::empty(),
    {
        let r = Reader { len: 0, items: VecDeque::new() };
        proof {
            assert(frags_view(r.items@) =~= Seq::<Seq<u8>>::empty());
        }
        r
    }

    /// How many bytes are buffered.
    pub fn len(&self) -> (r: usize)
        requires
            self.well_formed(),
        ensures
            r == self.buffered().len(),
    {
        self.len
    }

    /// Appends one arrived fragment to the buffer.
    pub fn push_chunk(&mut self, data: Vec<u8>)
        requires
            old(self).well_formed(),
            old(self).buffered().len() + data@.len() <= usize::MAX,
        ensures
            final(self).well_formed(),
            final(self).buffered() == old(self).buffered() + data@,
    {
        self.len = self.len + data.len();
        let ghost items0 = self.items@;
        self.items.push_back(data);
        proof {
            assert(frags_view(self.items@) =~= frags_view(items0).push(data@));
            frags_view(items0).lemma_flatten_push(data@);
        }
    }

    /// The position of the first buffered newline, as a fragment index and
    /// an offset within that fragment.
    fn find_newline(&self) -> (r: Option<(usize, usize)>)
        ensures
            match r {
                Some(ip) => {
                    &&& ip.0 < self.items@.len()
                    &&& ip.1 < self.items@[ip.0 as int]@.len()
                    &&& self.items@[ip.0 as int]@[ip.1 as int] == NEWLINE
                    &&& forall|k: int|
                        0 <= k < ip.0 ==> no_newline(#[trigger] self.items@[k]@)
                    &&& forall|q: int| 0 <= q < ip.1 ==> self.items@[ip.0 as int]@[q] != NEWLINE
                },
                None => forall|k: int|
                    0 <= k < self.items@.len() ==> no_newline(#[trigger] self.items@[k]@),
            },
    {
        let mut fi: usize = 0;
        while fi < self.items.len()
            invariant
                fi <= self.items@.len(),
                forall|k: int| 0 <= k < fi ==> no_newline(#[trigger] self.items@[k]@),
            decreases self.items@.len() - fi,
        {
            let chunk: &Vec<u8> = &self.items[fi];
            let mut pj: usize = 0;
            while pj < chunk.len()
                invariant
                    pj <= chunk@.len(),
                    fi < self.items@.len(),
                    chunk@ == self.items@[fi as int]@,
                    forall|k: int| 0 <= k < fi ==> no_newline(#[trigger] self.items@[k]@),
                    forall|q: int| 0 <= q < pj ==> chunk@[q] != NEWLINE,
                decreases chunk@.len() - pj,
            {
                if chunk[pj] == NEWLINE {
                    return Some((fi, pj));
                }
                pj = pj + 1;
            }
            proof {
                assert(no_newline(self.items@[fi as int]@));
            }
            fi = fi + 1;
        }
        None
    }

    /// Emits the first complete buffered line, with its terminator removed,
    /// consuming exactly those bytes and the terminator; leaves the buffer
    /// untouched when no newline is buffered yet.
    pub fn read_line(&mut self) -> (r: Option<bytes::Bytes>)
        requires
            old(self).well_formed(),
        ensures
            final(self).well_formed(),
            match r {
                Some(line) => split_line(old(self).buffered()) matches Some(p) && bytes_data(
                    line,
                ) == p.0 && final(self).buffered() == p.1,
                None => split_line(old(self).buffered()) is None && final(self).buffered()
                    == old(self).buffered(),
            },
    {
        self.read_until(NEWLINE)
    }

    /// The single emission step behind `read_line`; the terminator is always
    /// the newline byte.
    fn read_until(&mut self, until: u8) -> (r: Option<bytes::Bytes>)
        requires
            old(self).well_formed(),
            until == NEWLINE,
        ensures
            final(self).well_formed(),
            match r {
                Some(line) => split_line(old(self).buffered()) matches Some(p) && bytes_data(
                    line,
                ) == p.0 && final(self).buffered() == p.1,
                None => split_line(old(self).buffered()) is None && final(self).buffered()
                    == old(self).buffered(),
            },
    {
        let found = self.find_newline();
        match found {
            None => {
                proof {
                    lemma_no_newline_flatten(frags_view(self.items@));
                    lemma_split_at_delim_none(self.buffered(), |b: u8| is_newline(b));
                }
                None
            },
            Some((i, p)) => {
                let ghost frags0 = frags_view(self.items@);
                let ghost head = frags0.take(i as int).flatten() + frags0[i as int].take(p as int);
                let ghost rest = frags0[i as int].skip(p as int + 1) + frags0.skip(
                    i as int + 1,
                ).flatten();
                proof {
                    lemma_flatten_split(frags0, i as int);
                    assert(frags0.skip(i as int)[0] == frags0[i as int]);
                    assert(frags0.skip(i as int).drop_first() =~= frags0.skip(i as int + 1));
                    assert(frags0.skip(i as int).flatten() == frags0[i as int] + frags0.skip(
                        i as int + 1,
                    ).flatten());
                    assert(frags0[i as int] =~= frags0[i as int].take(p as int) + seq![NEWLINE]
                        + frags0[i as int].skip(p as int + 1));
                    assert(old(self).buffered() =~= head + seq![NEWLINE] + rest);
                    assert(forall|k: int| 0 <= k < i ==> no_newline(#[trigger] frags0.take(
                        i as int,
                    )[k]));
                    lemma_no_newline_flatten(frags0.take(i as int));
                    assert(no_newline(head));
                    lemma_split_line_at(head, rest);
                }
                let mut buf = buf_with_capacity(self.len);
                let mut k: usize = 0;
                let mut done: usize = 0;
                while k < i
                    invariant
                        k <= i,
                        i < frags0.len(),
                        self.len == old(self).len,
                        frags_view(self.items@) == frags0.skip(k as int),
                        crate::bytebuf::bytes_mut_data(buf) == frags0.take(k as int).flatten(),
                        done == frags0.take(k as int).flatten().len(),
                        frags0.flatten().len() <= usize::MAX,
                    decreases i - k,
                {
                    let ghost items_pre = self.items@;
                    let frag = match self.items.pop_front() {
                        Some(f) => f,
                        None => {
                            proof {
                                assert(frags0.skip(k as int).len() > 0);
                                assert(false);
                            }
                            Vec::new()
                        },
                    };
                    proof {
                        assert(frags0.skip(k as int)[0] == frags_view(items_pre)[0]);
                        assert(frag@ == frags0[k as int]);
                        assert(self.items@ =~= items_pre.drop_first());
                        assert(frags_view(items_pre).len() == items_pre.len());
                        assert(frags_view(self.items@).len() == self.items@.len());
                        assert(items_pre.len() == frags0.len() - k);
                        assert forall|j: int|
                            0 <= j < frags_view(self.items@).len() implies frags_view(
                            self.items@,
                        )[j] == frags0.skip(k as int + 1)[j] by {
                            assert(frags_view(self.items@)[j] == self.items@[j]@);
                            assert(self.items@[j] == items_pre[j + 1]);
                            assert(frags_view(items_pre)[j + 1] == items_pre[j + 1]@);
                            assert(frags_view(items_pre)[j + 1] == frags0.skip(k as int)[j + 1]);
                            assert(frags0.skip(k as int)[j + 1] == frags0[k as int + 1 + j]);
                            assert(frags0.skip(k as int + 1)[j] == frags0[k as int + 1 + j]);
                        }
                        assert(frags_view(self.items@) =~= frags0.skip(k as int + 1));
                        lemma_flatten_split(frags0, k as int + 1);
                        assert(frags0.take(k as int + 1) =~= frags0.take(k as int).push(
                            frags0[k as int],
                        ));
                        frags0.take(k as int).lemma_flatten_push(frags0[k as int]);
                    }
                    done = done + frag.len();
                    buf_extend(&mut buf, frag.as_slice());
                    k = k + 1;
                }
                let ghost items_mid = self.items@;
                let frag = match self.items.pop_front() {
                    Some(f) => f,
                    None => {
                        proof {
                            assert(frags0.skip(i as int).len() > 0);
                            assert(false);
                        }
                        Vec::new()
                    },
                };
                proof {
                    assert(frags0.skip(i as int)[0] == frags_view(items_mid)[0]);
                    assert(frag@ == frags0[i as int]);
                    assert(self.items@ =~= items_mid.drop_first());
                    assert(frags_view(items_mid).len() == items_mid.len());
                    assert(frags_view(self.items@).len() == self.items@.len());
                    assert(items_mid.len() == frags0.len() - i);
                    assert forall|j: int|
                        0 <= j < frags_view(self.items@).len() implies frags_view(self.items@)[j]
                        == frags0.skip(i as int + 1)[j] by {
                        assert(frags_view(self.items@)[j] == self.items@[j]@);
                        assert(self.items@[j] == items_mid[j + 1]);
                        assert(frags_view(items_mid)[j + 1] == items_mid[j + 1]@);
                        assert(frags_view(items_mid)[j + 1] == frags0.skip(i as int)[j + 1]);
                        assert(frags0.skip(i as int)[j + 1] == frags0[i as int + 1 + j]);
                        assert(frags0.skip(i as int + 1)[j] == frags0[i as int + 1 + j]);
                    }
                    assert(frags_view(self.items@) =~= frags0.skip(i as int + 1));
                    assert(frag@.subrange(0, p as int) =~= frags0[i as int].take(p as int));
                    assert(frag@.subrange(p as int + 1, frag@.len() as int) =~= frags0[
                        i as int
                    ].skip(p as int + 1));
                }
                let head_slice = slice_subrange(frag.as_slice(), 0, p);
                buf_extend(&mut buf, head_slice);
                let tail = slice_to_vec(slice_subrange(frag.as_slice(), p + 1, frag.len()));
                let ghost items_after = frags_view(self.items@);
                if tail.len() > 0 {
                    self.items.push_front(tail);
                    proof {
                        assert(frags_view(self.items@) =~= seq![
                            frags0[i as int].skip(p as int + 1),
                        ] + items_after);
                        lemma_flatten_concat(
                            seq![frags0[i as int].skip(p as int + 1)],
                            items_after,
                        );
                        seq![frags0[i as int].skip(p as int + 1)].lemma_flatten_singleton();
                    }
                } else {
                    proof {
                        assert(frags0[i as int].skip(p as int + 1) =~= Seq::<u8>::empty());
                        assert(self.buffered() =~= rest);
                    }
                }
                proof {
                    assert(self.buffered() == rest);
                    assert(old(self).buffered().len() == head.len() + 1 + rest.len());
                    assert(done + p + 1 <= old(self).len);
                }
                let consumed = done + p + 1;
                self.len = self.len - consumed;
                let line = buf_freeze(buf);
                proof {
                    assert(bytes_data(line) == head);
                    assert(self.len == rest.len());
                }
                Some(line)
            },
        }
    }
}

/// Frames a whole request's fragments at once. The emitted lines depend
/// only on the concatenation of the fragments, never on how the bytes were
/// split across them, and an unterminated trailing remainder is never
/// emitted.
pub fn framed_lines(fragments: Vec<Vec<u8>>) -> (r: Vec<bytes::Bytes>)
    requires
        frags_view(fragments@).flatten().len() <= usize::MAX,
    ensures
        r@.map_values(|b: bytes::Bytes| bytes_data(b)) == lines_of(
            frags_view(fragments@).flatten(),
        ),
{
    let ghost total = frags_view(fragments@).flatten();
    let mut reader = Reader::new();
    let mut i: usize = 0;
    proof {
        assert(frags_view(fragments@).take(0) =~= Seq::<Seq<u8>>::empty());
    }
    while i < fragments.len()
        invariant
            i <= fragments@.len(),
            reader.well_formed(),
            reader.buffered() == frags_view(fragments@).take(i as int).flatten(),
            frags_view(fragments@).flatten().len() <= usize::MAX,
        decreases fragments@.len() - i,
    {
        let frag = slice_to_vec(fragments[i].as_slice());
        proof {
            let fv = frags_view(fragments@);
            lemma_flatten_split(fv, i as int + 1);
            assert(fv.take(i as int + 1) =~= fv.take(i as int).push(fv[i as int]));
            fv.take(i as int).lemma_flatten_push(fv[i as int]);
            assert(frag@ == fv[i as int]);
        }
        reader.push_chunk(frag);
        i = i + 1;
    }
    proof {
        assert(frags_view(fragments@).take(fragments@.len() as int) =~= frags_view(fragments@));
    }
    let mut out: Vec<bytes::Bytes> = Vec::new();
    loop
        invariant
            reader.well_formed(),
            total == frags_view(fragments@).flatten(),
            lines_of(total) == out@.map_values(|b: bytes::Bytes| bytes_data(b)) + lines_of(
                reader.buffered(),
            ),
        decreases reader.buffered().len(),
    {
        let ghost pre = reader.buffered();
        match reader.read_line() {
            Some(line) => {
                proof {
                    lemma_split_line_parts(pre);
                    assert(out@.push(line).map_values(|b: bytes::Bytes| bytes_data(b))
                        =~= out@.map_values(|b: bytes::Bytes| bytes_data(b)).push(
                        bytes_data(line),
                    ));
                    assert(out@.map_values(|b: bytes::Bytes| bytes_data(b)) + (seq![
                        bytes_data(line),
                    ] + lines_of(reader.buffered())) =~= (out@.map_values(
                        |b: bytes::Bytes| bytes_data(b),
                    ) + seq![bytes_data(line)]) + lines_of(reader.buffered()));
                    assert(out@.map_values(|b: bytes::Bytes| bytes_data(b)).push(
                        bytes_data(line),
                    ) =~= out@.map_values(|b: bytes::Bytes| bytes_data(b)) + seq![
                        bytes_data(line),
                    ]);
                }
                out.push(line);
            },
            None => {
                proof {
                    lemma_split_line_parts(pre);
                    assert(split_line(pre) is None);
                    assert(lines_of(pre) == Seq::<Seq<u8>>::empty());
                    assert(reader.buffered() == pre);
                    assert(out@.map_values(|b: bytes::Bytes| bytes_data(b)) + Seq::<
                        Seq<u8>,
                    >::empty() =~= out@.map_values(|b: bytes::Bytes| bytes_data(b)));
                    assert(lines_of(total) == out@.map_values(|b: bytes::Bytes| bytes_data(b)));
                    assert(total == frags_view(fragments@).flatten());
                }
                return out;
            },
        }
    }
}

} // verus!
