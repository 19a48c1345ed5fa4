//! Measurement Processor: decodes one record's tags, fields and timestamp,
//! drops every tag whose key is configured to be stripped, and re-serializes
//! the record in canonical form for forwarding.

use vstd::prelude::*;
use vstd::string::StrSliceExecFns;

use crate::bytebuf::{
    buf_extend, buf_freeze, buf_put_u8, buf_with_capacity, bytes_data, bytes_mut_data,
};
use crate::parser::{
    fields, get_measurement_name, get_timestamp, is_digit, is_key_end, is_meas_delim, is_term,
    lemma_split_at_delim_concat, pairs_view, spec_fields, spec_measurement, spec_record, spec_tags,
    spec_timestamp, tags, Record, COMMA, EQUALS, NEWLINE, SPACE,
};

verus! {

/// `key=value`.
pub open spec fn ser_kv(kv: (Seq<u8>, Seq<u8>)) -> Seq<u8> {
    kv.0 + seq![EQUALS] + kv.1
}

/// `,key=value` for each pair in order: the shape of the serialized tag
/// list, and of every serialized field after the first.
pub open spec fn ser_tags(tags: Seq<(Seq<u8>, Seq<u8>)>) -> Seq<u8>
    decreases tags.len(),
{
    if tags.len() == 0 {
        Seq::empty()
    } else {
        seq![COMMA] + ser_kv(tags[0]) + ser_tags(tags.drop_first())
    }
}

/// ` key=value` for the first field, then `,key=value` for each further one.
pub open spec fn ser_fields(fields: Seq<(Seq<u8>, Seq<u8>)>) -> Seq<u8> {
    if fields.len() == 0 {
        Seq::empty()
    } else {
        seq![SPACE] + ser_kv(fields[0]) + ser_tags(fields.drop_first())
    }
}

/// ` ` then the digits, or nothing.
pub open spec fn ser_timestamp(ts: Option<Seq<u8>>) -> Seq<u8> {
    match ts {
        Some(d) => seq![SPACE] + d,
        None => Seq::empty(),
    }
}

/// The tags that survive stripping: original order, duplicates preserved,
/// exactly those whose key is not in `strip`.
pub open spec fn kept_tags(tags: Seq<(Seq<u8>, Seq<u8>)>, strip: Set<Seq<u8>>) -> Seq<
    (Seq<u8>, Seq<u8>),
> {
    tags.filter(|t: (Seq<u8>, Seq<u8>)| !strip.contains(t.0))
}

/// The canonical re-serialization of a decoded record with `strip` applied:
/// measurement, surviving tags, all fields, the timestamp if present, and
/// the terminating newline.
pub open spec fn serialize_record(
    m: Seq<u8>,
    tags: Seq<(Seq<u8>, Seq<u8>)>,
    strip: Set<Seq<u8>>,
    fields: Seq<(Seq<u8>, Seq<u8>)>,
    ts: Option<Seq<u8>>,
) -> Seq<u8> {
    m + ser_tags(kept_tags(tags, strip)) + ser_fields(fields) + ser_timestamp(ts) + seq![NEWLINE]
}

/// Appending a pair extends the serialized tag list at its end.
pub proof fn lemma_ser_tags_push(tags: Seq<(Seq<u8>, Seq<u8>)>, t: (Seq<u8>, Seq<u8>))
    ensures
        ser_tags(tags.push(t)) == ser_tags(tags) + seq![COMMA] + ser_kv(t),
    decreases tags.len(),
{
    if tags.len() == 0 {
        assert(tags.push(t)[0] == t);
        assert(tags.push(t).drop_first() =~= Seq::<(Seq<u8>, Seq<u8>)>::empty());
        assert(ser_tags(tags.push(t).drop_first()) == Seq::<u8>::empty());
        assert(ser_tags(tags.push(t)) == seq![COMMA] + ser_kv(t) + Seq::<u8>::empty());
        assert(ser_tags(tags) == Seq::<u8>::empty());
        assert(seq![COMMA] + ser_kv(t) + Seq::<u8>::empty() =~= (Seq::<u8>::empty() + seq![COMMA])
            + ser_kv(t));
    } else {
        assert(tags.push(t)[0] == tags[0]);
        assert(tags.push(t).drop_first() =~= tags.drop_first().push(t));
        lemma_ser_tags_push(tags.drop_first(), t);
        assert(seq![COMMA] + ser_kv(tags[0]) + (ser_tags(tags.drop_first()) + seq![COMMA] + ser_kv(
            t,
        )) =~= (seq![COMMA] + ser_kv(tags[0]) + ser_tags(tags.drop_first())) + seq![COMMA]
            + ser_kv(t));
    }
}

/// Serializing one more tag of the prefix appends its `,key=value`.
pub proof fn lemma_ser_tags_take(tags: Seq<(Seq<u8>, Seq<u8>)>, j: int)
    requires
        0 <= j < tags.len(),
    ensures
        ser_tags(tags.take(j + 1)) == ser_tags(tags.take(j)) + seq![COMMA] + ser_kv(tags[j]),
{
    assert(tags.take(j + 1) =~= tags.take(j).push(tags[j]));
    lemma_ser_tags_push(tags.take(j), tags[j]);
}

/// Serializing one more field of the prefix appends its delimiter — ` ` for
/// the first field, `,` after — and its `key=value`.
pub proof fn lemma_ser_fields_take(fs: Seq<(Seq<u8>, Seq<u8>)>, j: int)
    requires
        0 <= j < fs.len(),
    ensures
        ser_fields(fs.take(j + 1)) == ser_fields(fs.take(j)) + seq![
            if j == 0 {
                SPACE
            } else {
                COMMA
            },
        ] + ser_kv(fs[j]),
{
    if j == 0 {
        assert(fs.take(1)[0] == fs[0]);
        assert(fs.take(1).drop_first() =~= Seq::<(Seq<u8>, Seq<u8>)>::empty());
        assert(fs.take(0) =~= Seq::<(Seq<u8>, Seq<u8>)>::empty());
        assert(seq![SPACE] + ser_kv(fs[0]) + Seq::<u8>::empty() =~= (Seq::<u8>::empty() + seq![
            SPACE,
        ]) + ser_kv(fs[0]));
    } else {
        assert(fs.take(j + 1)[0] == fs[0]);
        assert(fs.take(j)[0] == fs[0]);
        assert(fs.take(j + 1).drop_first() =~= fs.drop_first().take(j));
        assert(fs.take(j).drop_first() =~= fs.drop_first().take(j - 1));
        assert(fs.drop_first()[j - 1] == fs[j]);
        lemma_ser_tags_take(fs.drop_first(), j - 1);
        assert(seq![SPACE] + ser_kv(fs[0]) + (ser_tags(fs.drop_first().take(j - 1)) + seq![COMMA]
            + ser_kv(fs[j])) =~= (seq![SPACE] + ser_kv(fs[0]) + ser_tags(
            fs.drop_first().take(j - 1),
        )) + seq![COMMA] + ser_kv(fs[j]));
    }
}

/// How `kept_tags` treats one appended pair.
pub proof fn lemma_kept_tags_push(
    tags: Seq<(Seq<u8>, Seq<u8>)>,
    strip: Set<Seq<u8>>,
    t: (Seq<u8>, Seq<u8>),
)
    ensures
        kept_tags(tags.push(t), strip) == if strip.contains(t.0) {
            kept_tags(tags, strip)
        } else {
            kept_tags(tags, strip).push(t)
        },
{
    reveal(Seq::filter);
    assert(tags.push(t).drop_last() =~= tags);
    assert(tags.push(t).last() == t);
    if !strip.contains(t.0) {
        assert(kept_tags(tags, strip) + seq![t] =~= kept_tags(tags, strip).push(t));
    } else {
        assert(kept_tags(tags, strip) + Seq::<(Seq<u8>, Seq<u8>)>::empty() =~= kept_tags(
            tags,
            strip,
        ));
    }
}

/// `kept_tags` on one more element of the prefix.
pub proof fn lemma_kept_tags_take(tags: Seq<(Seq<u8>, Seq<u8>)>, strip: Set<Seq<u8>>, j: int)
    requires
        0 <= j < tags.len(),
    ensures
        kept_tags(tags.take(j + 1), strip) == if strip.contains(tags[j].0) {
            kept_tags(tags.take(j), strip)
        } else {
            kept_tags(tags.take(j), strip).push(tags[j])
        },
{
    assert(tags.take(j + 1) =~= tags.take(j).push(tags[j]));
    lemma_kept_tags_push(tags.take(j), strip, tags[j]);
}

/// A sequence of pairs none of whose keys is stripped is kept whole.
pub proof fn lemma_kept_tags_all(tags: Seq<(Seq<u8>, Seq<u8>)>, strip: Set<Seq<u8>>)
    requires
        forall|i: int| 0 <= i < tags.len() ==> !strip.contains((#[trigger] tags[i]).0),
    ensures
        kept_tags(tags, strip) == tags,
    decreases tags.len(),
{
    reveal(Seq::filter);
    if tags.len() > 0 {
        assert(forall|i: int|
            0 <= i < tags.drop_last().len() ==> !strip.contains(
                (#[trigger] tags.drop_last()[i]).0,
            ));
        lemma_kept_tags_all(tags.drop_last(), strip);
        assert(!strip.contains(tags.last().0));
        assert(tags.drop_last() + seq![tags.last()] =~= tags);
    } else {
        assert(kept_tags(tags, strip) =~= tags);
    }
}

/// Whole-slice byte equality.
fn bytes_eq(a: &[u8], b: &[u8]) -> (r: bool)
    ensures
        r == (a@ == b@),
{
    if a.len() != b.len() {
        return false;
    }
    let mut i: usize = 0;
    while i < a.len()
        invariant
            i <= a@.len(),
            a@.len() == b@.len(),
            forall|j: int| 0 <= j < i ==> a@[j] == b@[j],
        decreases a@.len() - i,
    {
        if a[i] != b[i] {
            return false;
        }
        i = i + 1;
    }
    proof {
        assert(a@ =~= b@);
    }
    true
}

/// Strips a configured set of tag keys from every record of one
/// measurement.
pub struct MetricProcessor {
    /// The tag keys to strip, as byte strings.
    pub tags: Vec<Vec<u8>>,
}

impl MetricProcessor {
    /// The set of tag keys this processor strips.
    pub open spec fn strip_set(&self) -> Set<Seq<u8>> {
        Set::new(
            |k: Seq<u8>| exists|i: int| 0 <= i < self.tags@.len() && (#[trigger] self.tags@[i])@ == k,
        )
    }

    /// Builds a processor that strips exactly the given keys, held as their
    /// UTF-8 bytes.
    pub fn new(strings: Vec<String>) -> (r: MetricProcessor)
        ensures
            r.tags@.len() == strings@.len(),
            forall|i: int|
                0 <= i < strings@.len() ==> (#[trigger] r.tags@[i])@ == vstd::utf8::encode_utf8(
                    strings@[i]@,
                ),
    {
        let mut tags: Vec<Vec<u8>> = Vec::new();
        let mut i: usize = 0;
        while i < strings.len()
            invariant
                i <= strings@.len(),
                tags@.len() == i,
                forall|j: int|
                    0 <= j < i ==> (#[trigger] tags@[j])@ == vstd::utf8::encode_utf8(
                        strings@[j]@,
                    ),
            decreases strings@.len() - i,
        {
            let s: &String = &strings[i];
            tags.push(s.as_str().as_bytes_vec());
            i = i + 1;
        }
        MetricProcessor { tags }
    }

    /// Whether `key` is one of the stripped tag keys.
    fn is_stripped(&self, key: &[u8]) -> (r: bool)
        ensures
            r == self.strip_set().contains(key@),
    {
        let mut i: usize = 0;
        while i < self.tags.len()
            invariant
                i <= self.tags@.len(),
                forall|j: int| 0 <= j < i ==> (#[trigger] self.tags@[j])@ != key@,
            decreases self.tags@.len() - i,
        {
            if bytes_eq(self.tags[i].as_slice(), key) {
                return true;
            }
            i = i + 1;
        }
        false
    }

    /// Decodes `data` — everything of one record after the measurement name,
    /// beginning at the delimiter that ended it — and re-serializes the
    /// record under `name` with the stripped tag keys removed. `None`
    /// exactly when the record is malformed: the mandatory first field is
    /// missing.
    pub fn process(&self, name: &[u8], data: &[u8]) -> (r: Option<bytes::Bytes>)
        ensures
            ({
                let t = spec_tags(data@);
                match spec_fields(t.1) {
                    Some(fr) => r matches Some(line) && bytes_data(line) == serialize_record(
                        name@,
                        t.0,
                        self.strip_set(),
                        fr.0,
                        spec_timestamp(fr.1).0,
                    ),
                    None => r is None,
                }
            }),
    {
        let (rest1, tg) = tags(data);
        match fields(rest1) {
            Some((rest2, fs)) => {
                let (_rest3, ts) = get_timestamp(rest2);
                let ghost tagsv = pairs_view(tg@);
                let ghost fieldsv = pairs_view(fs@);
                let ghost strip = self.strip_set();
                let mut buf = buf_with_capacity(1024);
                buf_extend(&mut buf, name);
                let mut i: usize = 0;
                while i < tg.len()
                    invariant
                        i <= tg@.len(),
                        tagsv == pairs_view(tg@),
                        strip == self.strip_set(),
                        bytes_mut_data(buf) == name@ + ser_tags(
                            kept_tags(tagsv.take(i as int), strip),
                        ),
                    decreases tg@.len() - i,
                {
                    let (k, v) = tg[i];
                    proof {
                        assert(tagsv[i as int] == ((k@, v@)));
                        lemma_kept_tags_take(tagsv, strip, i as int);
                    }
                    if !self.is_stripped(k) {
                        buf_put_u8(&mut buf, COMMA);
                        buf_extend(&mut buf, k);
                        buf_put_u8(&mut buf, EQUALS);
                        buf_extend(&mut buf, v);
                        proof {
                            lemma_ser_tags_push(kept_tags(tagsv.take(i as int), strip), (k@, v@));
                            assert(name@ + ser_tags(kept_tags(tagsv.take(i as int), strip)) + seq![
                                COMMA,
                            ] + k@ + seq![EQUALS] + v@ =~= name@ + (ser_tags(
                                kept_tags(tagsv.take(i as int), strip),
                            ) + seq![COMMA] + (k@ + seq![EQUALS] + v@)));
                        }
                    }
                    i = i + 1;
                }
                proof {
                    assert(tagsv.take(tagsv.len() as int) =~= tagsv);
                }
                let mut j: usize = 0;
                while j < fs.len()
                    invariant
                        j <= fs@.len(),
                        tagsv == pairs_view(tg@),
                        fieldsv == pairs_view(fs@),
                        strip == self.strip_set(),
                        bytes_mut_data(buf) == name@ + ser_tags(kept_tags(tagsv, strip))
                            + ser_fields(fieldsv.take(j as int)),
                    decreases fs@.len() - j,
                {
                    let (k, v) = fs[j];
                    let delim = if j == 0 {
                        SPACE
                    } else {
                        COMMA
                    };
                    buf_put_u8(&mut buf, delim);
                    buf_extend(&mut buf, k);
                    buf_put_u8(&mut buf, EQUALS);
                    buf_extend(&mut buf, v);
                    proof {
                        assert(fieldsv[j as int] == ((k@, v@)));
                        lemma_ser_fields_take(fieldsv, j as int);
                        assert(name@ + ser_tags(kept_tags(tagsv, strip)) + ser_fields(
                            fieldsv.take(j as int),
                        ) + seq![delim] + k@ + seq![EQUALS] + v@ =~= name@ + ser_tags(
                            kept_tags(tagsv, strip),
                        ) + (ser_fields(fieldsv.take(j as int)) + seq![delim] + (k@ + seq![EQUALS]
                            + v@)));
                    }
                    j = j + 1;
                }
                proof {
                    assert(fieldsv.take(fieldsv.len() as int) =~= fieldsv);
                }
                match ts {
                    Some(d) => {
                        buf_put_u8(&mut buf, SPACE);
                        buf_extend(&mut buf, d);
                        proof {
                            assert(bytes_mut_data(buf) =~= name@ + ser_tags(
                                kept_tags(tagsv, strip),
                            ) + ser_fields(fieldsv) + (seq![SPACE] + d@));
                        }
                    },
                    None => {
                        proof {
                            assert(bytes_mut_data(buf) =~= name@ + ser_tags(
                                kept_tags(tagsv, strip),
                            ) + ser_fields(fieldsv) + Seq::<u8>::empty());
                        }
                    },
                }
                buf_put_u8(&mut buf, NEWLINE);
                let line = buf_freeze(buf);
                proof {
                    assert(bytes_data(line) =~= name@ + ser_tags(kept_tags(tagsv, strip))
                        + ser_fields(fieldsv) + ser_timestamp(spec_timestamp(rest2@).0) + seq![
                        NEWLINE,
                    ]);
                }
                Some(line)
            },
            None => None,
        }
    }
}

/// Read-only mapping from measurement name to the processor configured for
/// it; built once at startup, looked up by exact bytes, first entry wins.
pub struct PolicyTable {
    pub entries: Vec<(Vec<u8>, MetricProcessor)>,
}

/// First-match lookup among the table's entries.
pub open spec fn spec_lookup(entries: Seq<(Vec<u8>, MetricProcessor)>, name: Seq<u8>) -> Option<
    MetricProcessor,
>
    decreases entries.len(),
{
    if entries.len() == 0 {
        None
    } else if entries[0].0@ == name {
        Some(entries[0].1)
    } else {
        spec_lookup(entries.drop_first(), name)
    }
}

impl PolicyTable {
    /// An empty table routes nothing.
    pub fn new() -> (r: PolicyTable)
        ensures
            r.entries@.len() == 0,
    {
        PolicyTable { entries: Vec::new() }
    }

    /// The processor for `name`, if a policy was configured for it.
    pub fn get(&self, name: &[u8]) -> (r: Option<&MetricProcessor>)
        ensures
            match r {
                Some(p) => spec_lookup(self.entries@, name@) == Some(*p),
                None => spec_lookup(self.entries@, name@) is None,
            },
    {
        let mut i: usize = 0;
        proof {
            assert(self.entries@.skip(0) =~= self.entries@);
        }
        while i < self.entries.len()
            invariant
                i <= self.entries@.len(),
                spec_lookup(self.entries@, name@) == spec_lookup(
                    self.entries@.skip(i as int),
                    name@,
                ),
            decreases self.entries@.len() - i,
        {
            let entry = &self.entries[i];
            proof {
                assert(self.entries@.skip(i as int)[0] == self.entries@[i as int]);
            }
            if bytes_eq(entry.0.as_slice(), name) {
                return Some(&entry.1);
            }
            proof {
                assert(self.entries@.skip(i as int).drop_first() =~= self.entries@.skip(
                    i as int + 1,
                ));
            }
            i = i + 1;
        }
        proof {
            assert(self.entries@.skip(self.entries@.len() as int).len() == 0);
        }
        None
    }
}

/// What one line of the stream leads to.
pub enum RunOutcome {
    /// The re-serialized record, ready for the forwarding sink.
    Forwarded(bytes::Bytes),
    /// The measurement has no policy: dropped silently, counted by the
    /// caller, never an error.
    Unrouted,
    /// The record is malformed: dropped, the stream goes on.
    Malformed,
}

/// The bytes one line contributes to the forwarded stream, if any.
pub open spec fn spec_run(line: Seq<u8>, entries: Seq<(Vec<u8>, MetricProcessor)>) -> Option<
    Seq<u8>,
> {
    match spec_measurement(line) {
        Some(mr) => match spec_lookup(entries, mr.0) {
            Some(p) => {
                let t = spec_tags(mr.1);
                match spec_fields(t.1) {
                    Some(fr) => Some(
                        serialize_record(mr.0, t.0, p.strip_set(), fr.0, spec_timestamp(fr.1).0),
                    ),
                    None => None,
                }
            },
            None => None,
        },
        None => None,
    }
}

/// Routes one line: extracts the measurement name, looks its policy up, and
/// on a match rewrites the record for forwarding. A line with no measurement
/// delimiter or no field is malformed; one whose measurement has no policy
/// is unrouted; neither stops the stream.
pub fn run(buf: &[u8], processors: &PolicyTable) -> (r: RunOutcome)
    ensures
        match spec_measurement(buf@) {
            None => r is Malformed,
            Some(mr) => match spec_lookup(processors.entries@, mr.0) {
                None => r is Unrouted,
                Some(p) => {
                    let t = spec_tags(mr.1);
                    match spec_fields(t.1) {
                        None => r is Malformed,
                        Some(fr) => r matches RunOutcome::Forwarded(line) && bytes_data(line)
                            == serialize_record(
                            mr.0,
                            t.0,
                            p.strip_set(),
                            fr.0,
                            spec_timestamp(fr.1).0,
                        ),
                    }
                },
            },
        },
        r matches RunOutcome::Forwarded(line) ==> spec_run(buf@, processors.entries@) == Some(
            bytes_data(line),
        ),
        !(r is Forwarded) ==> spec_run(buf@, processors.entries@) is None,
{
    match get_measurement_name(buf) {
        Some((remaining, name)) => match processors.get(name) {
            Some(processor) => match processor.process(name, remaining) {
                Some(line) => RunOutcome::Forwarded(line),
                None => RunOutcome::Malformed,
            },
            None => RunOutcome::Unrouted,
        },
        None => RunOutcome::Malformed,
    }
}

/// What a whole request's lines hand to the forwarding sink, in order: each
/// line's contribution, with malformed and unrouted lines contributing
/// nothing.
pub open spec fn spec_forwarded(
    lines: Seq<Seq<u8>>,
    entries: Seq<(Vec<u8>, MetricProcessor)>,
) -> Seq<Seq<u8>>
    decreases lines.len(),
{
    if lines.len() == 0 {
        Seq::empty()
    } else {
        match spec_run(lines[0], entries) {
            Some(b) => seq![b] + spec_forwarded(lines.drop_first(), entries),
            None => spec_forwarded(lines.drop_first(), entries),
        }
    }
}

/// Forwarding distributes over concatenation of line sequences.
pub proof fn lemma_forwarded_concat(
    a: Seq<Seq<u8>>,
    b: Seq<Seq<u8>>,
    entries: Seq<(Vec<u8>, MetricProcessor)>,
)
    ensures
        spec_forwarded(a + b, entries) == spec_forwarded(a, entries) + spec_forwarded(b, entries),
    decreases a.len(),
{
    if a.len() == 0 {
        assert(a + b =~= b);
        assert(Seq::<Seq<u8>>::empty() + spec_forwarded(b, entries) =~= spec_forwarded(
            b,
            entries,
        ));
    } else {
        assert((a + b)[0] == a[0]);
        assert((a + b).drop_first() =~= a.drop_first() + b);
        lemma_forwarded_concat(a.drop_first(), b, entries);
        match spec_run(a[0], entries) {
            Some(x) => {
                assert(seq![x] + (spec_forwarded(a.drop_first(), entries) + spec_forwarded(
                    b,
                    entries,
                )) =~= (seq![x] + spec_forwarded(a.drop_first(), entries)) + spec_forwarded(
                    b,
                    entries,
                ));
            },
            None => {},
        }
    }
}

/// LAW (malformed-line isolation): a line that produces nothing — malformed
/// or unrouted — leaves the forwarded output of the lines around it exactly
/// what it would have been without it; in particular it stops nothing that
/// follows.
pub proof fn lemma_isolated_line(
    pre: Seq<Seq<u8>>,
    bad: Seq<u8>,
    post: Seq<Seq<u8>>,
    entries: Seq<(Vec<u8>, MetricProcessor)>,
)
    requires
        spec_run(bad, entries) is None,
    ensures
        spec_forwarded(pre + seq![bad] + post, entries) == spec_forwarded(pre, entries)
            + spec_forwarded(post, entries),
{
    lemma_forwarded_concat(pre, seq![bad] + post, entries);
    assert((seq![bad] + post)[0] == bad);
    assert((seq![bad] + post).drop_first() =~= post);
    assert(pre + (seq![bad] + post) =~= pre + seq![bad] + post);
}

/// Frames the fragments and routes every complete line: what comes out is
/// exactly the forwarded serialization of each routable well-formed line,
/// in stream order, however the bytes were fragmented.
pub fn pipeline(fragments: Vec<Vec<u8>>, processors: &PolicyTable) -> (r: Vec<bytes::Bytes>)
    requires
        crate::lines::frags_view(fragments@).flatten().len() <= usize::MAX,
    ensures
        r@.map_values(|b: bytes::Bytes| bytes_data(b)) == spec_forwarded(
            crate::lines::lines_of(crate::lines::frags_view(fragments@).flatten()),
            processors.entries@,
        ),
{
    let lines = crate::lines::framed_lines(fragments);
    let ghost lv = lines@.map_values(|b: bytes::Bytes| bytes_data(b));
    let mut out: Vec<bytes::Bytes> = Vec::new();
    let mut i: usize = 0;
    proof {
        assert(lv.skip(0) =~= lv);
        assert(out@.map_values(|b: bytes::Bytes| bytes_data(b)) + spec_forwarded(
            lv,
            processors.entries@,
        ) =~= spec_forwarded(lv, processors.entries@));
    }
    while i < lines.len()
        invariant
            i <= lines@.len(),
            lv == lines@.map_values(|b: bytes::Bytes| bytes_data(b)),
            spec_forwarded(lv, processors.entries@) == out@.map_values(
                |b: bytes::Bytes| bytes_data(b),
            ) + spec_forwarded(lv.skip(i as int), processors.entries@),
        decreases lines@.len() - i,
    {
        let data = crate::bytebuf::bytes_as_slice(&lines[i]);
        proof {
            assert(lv.skip(i as int)[0] == lv[i as int]);
            assert(lv[i as int] == bytes_data(lines@[i as int]));
            assert(lv.skip(i as int).drop_first() =~= lv.skip(i as int + 1));
        }
        match run(data, processors) {
            RunOutcome::Forwarded(b) => {
                proof {
                    assert(out@.push(b).map_values(|x: bytes::Bytes| bytes_data(x))
                        =~= out@.map_values(|x: bytes::Bytes| bytes_data(x)).push(bytes_data(b)));
                    assert(out@.map_values(|x: bytes::Bytes| bytes_data(x)).push(bytes_data(b))
                        =~= out@.map_values(|x: bytes::Bytes| bytes_data(x)) + seq![
                        bytes_data(b),
                    ]);
                    assert(out@.map_values(|x: bytes::Bytes| bytes_data(x)) + (seq![
                        bytes_data(b),
                    ] + spec_forwarded(lv.skip(i as int + 1), processors.entries@)) =~= (
                    out@.map_values(|x: bytes::Bytes| bytes_data(x)) + seq![bytes_data(b)])
                        + spec_forwarded(lv.skip(i as int + 1), processors.entries@));
                }
                out.push(b);
            },
            RunOutcome::Unrouted => {},
            RunOutcome::Malformed => {},
        }
        i = i + 1;
    }
    proof {
        assert(lv.skip(lv.len() as int).len() == 0);
        assert(out@.map_values(|b: bytes::Bytes| bytes_data(b)) + Seq::<Seq<u8>>::empty()
            =~= out@.map_values(|b: bytes::Bytes| bytes_data(b)));
    }
    out
}

/// Drains every complete buffered line from the reader, routing each
/// through the table: what comes out is the forwarded serialization of each
/// routable well-formed line in order, and only the unterminated tail stays
/// buffered. This is the incremental step a listener takes after pushing
/// each arrived fragment.
pub fn drain(reader: &mut crate::lines::Reader, processors: &PolicyTable) -> (out: Vec<
    bytes::Bytes,
>)
    requires
        old(reader).well_formed(),
    ensures
        final(reader).well_formed(),
        final(reader).buffered() == crate::lines::unterminated_tail(old(reader).buffered()),
        out@.map_values(|b: bytes::Bytes| bytes_data(b)) == spec_forwarded(
            crate::lines::lines_of(old(reader).buffered()),
            processors.entries@,
        ),
{
    let mut out: Vec<bytes::Bytes> = Vec::new();
    proof {
        assert(out@.map_values(|b: bytes::Bytes| bytes_data(b)) + spec_forwarded(
            crate::lines::lines_of(old(reader).buffered()),
            processors.entries@,
        ) =~= spec_forwarded(
            crate::lines::lines_of(old(reader).buffered()),
            processors.entries@,
        ));
    }
    loop
        invariant
            reader.well_formed(),
            crate::lines::unterminated_tail(old(reader).buffered())
                == crate::lines::unterminated_tail(reader.buffered()),
            spec_forwarded(crate::lines::lines_of(old(reader).buffered()), processors.entries@)
                == out@.map_values(|b: bytes::Bytes| bytes_data(b)) + spec_forwarded(
                crate::lines::lines_of(reader.buffered()),
                processors.entries@,
            ),
        decreases reader.buffered().len(),
    {
        let ghost pre = reader.buffered();
        match reader.read_line() {
            Some(line) => {
                proof {
                    crate::lines::lemma_split_line_parts(pre);
                    crate::lines::lemma_unterminated_tail_step(pre);
                }
                let ghost lv = crate::lines::lines_of(reader.buffered());
                proof {
                    assert((seq![bytes_data(line)] + lv)[0] == bytes_data(line));
                    assert((seq![bytes_data(line)] + lv).drop_first() =~= lv);
                }
                let data = crate::bytebuf::bytes_as_slice(&line);
                match run(data, processors) {
                    RunOutcome::Forwarded(b) => {
                        proof {
                            assert(out@.push(b).map_values(|x: bytes::Bytes| bytes_data(x))
                                =~= out@.map_values(|x: bytes::Bytes| bytes_data(x)).push(
                                bytes_data(b),
                            ));
                            assert(out@.map_values(|x: bytes::Bytes| bytes_data(x)).push(
                                bytes_data(b),
                            ) =~= out@.map_values(|x: bytes::Bytes| bytes_data(x)) + seq![
                                bytes_data(b),
                            ]);
                            assert(out@.map_values(|x: bytes::Bytes| bytes_data(x)) + (seq![
                                bytes_data(b),
                            ] + spec_forwarded(lv, processors.entries@)) =~= (out@.map_values(
                                |x: bytes::Bytes| bytes_data(x),
                            ) + seq![bytes_data(b)]) + spec_forwarded(lv, processors.entries@));
                        }
                        out.push(b);
                    },
                    RunOutcome::Unrouted => {},
                    RunOutcome::Malformed => {},
                }
            },
            None => {
                proof {
                    crate::lines::lemma_split_line_parts(pre);
                    crate::lines::lemma_unterminated_tail_step(pre);
                    assert(out@.map_values(|b: bytes::Bytes| bytes_data(b)) + Seq::<
                        Seq<u8>,
                    >::empty() =~= out@.map_values(|b: bytes::Bytes| bytes_data(b)));
                }
                return out;
            },
        }
    }
}

/// Every kept tag's key is outside the strip set.
proof fn lemma_kept_tags_pred(tags: Seq<(Seq<u8>, Seq<u8>)>, strip: Set<Seq<u8>>)
    ensures
        forall|i: int|
            0 <= i < kept_tags(tags, strip).len() ==> !strip.contains(
                (#[trigger] kept_tags(tags, strip)[i]).0,
            ),
    decreases tags.len(),
{
    reveal(Seq::filter);
    if tags.len() > 0 {
        lemma_kept_tags_pred(tags.drop_last(), strip);
        let f = kept_tags(tags, strip);
        let g = kept_tags(tags.drop_last(), strip);
        assert forall|i: int| 0 <= i < f.len() implies !strip.contains((#[trigger] f[i]).0) by {
            if i < g.len() {
                assert(f[i] == g[i]);
            } else {
                assert(f[i] == tags.last());
            }
        }
    }
}

/// LAW (tag-stripping idempotence): stripping a set of tag keys once leaves
/// nothing for a second pass with the same set to remove.
pub proof fn lemma_strip_idempotent(tags: Seq<(Seq<u8>, Seq<u8>)>, strip: Set<Seq<u8>>)
    ensures
        kept_tags(kept_tags(tags, strip), strip) == kept_tags(tags, strip),
{
    lemma_kept_tags_pred(tags, strip);
    lemma_kept_tags_all(kept_tags(tags, strip), strip);
}

/// LAW (tag-stripping idempotence, serialized form): re-serializing with
/// the same strip set a record whose tags were already stripped by it
/// yields byte-for-byte the same record.
pub proof fn lemma_restrip_same(
    m: Seq<u8>,
    tags: Seq<(Seq<u8>, Seq<u8>)>,
    strip: Set<Seq<u8>>,
    fields: Seq<(Seq<u8>, Seq<u8>)>,
    ts: Option<Seq<u8>>,
)
    ensures
        serialize_record(m, kept_tags(tags, strip), strip, fields, ts) == serialize_record(
            m,
            tags,
            strip,
            fields,
            ts,
        ),
{
    lemma_strip_idempotent(tags, strip);
}

/// A measurement name free of the delimiters that would end it early.
pub open spec fn wf_name(s: Seq<u8>) -> bool {
    forall|i: int| 0 <= i < s.len() ==> !is_meas_delim(#[trigger] s[i])
}

/// A key free of `=`, ` ` and newline.
pub open spec fn wf_key(s: Seq<u8>) -> bool {
    forall|i: int| 0 <= i < s.len() ==> !is_key_end(#[trigger] s[i])
}

/// A value free of `,`, ` ` and newline.
pub open spec fn wf_value(s: Seq<u8>) -> bool {
    forall|i: int| 0 <= i < s.len() ==> !is_term(#[trigger] s[i])
}

pub open spec fn wf_pairs(ps: Seq<(Seq<u8>, Seq<u8>)>) -> bool {
    forall|i: int| 0 <= i < ps.len() ==> wf_key((#[trigger] ps[i]).0) && wf_value(ps[i].1)
}

/// A record the serializer can re-emit losslessly: the grammar has no
/// escaping, so names, keys and values must be free of the delimiters that
/// would cut them short, at least one field must be present, and a
/// timestamp must be one or more decimal digits.
pub open spec fn wf_record(r: Record) -> bool {
    &&& wf_name(r.measurement)
    &&& wf_pairs(r.tags)
    &&& wf_pairs(r.fields)
    &&& r.fields.len() >= 1
    &&& match r.timestamp {
        Some(d) => d.len() >= 1 && forall|i: int| 0 <= i < d.len() ==> is_digit(#[trigger] d[i]),
        None => true,
    }
}

/// Stripping keeps every pair well formed.
proof fn lemma_kept_tags_wf(tags: Seq<(Seq<u8>, Seq<u8>)>, strip: Set<Seq<u8>>)
    requires
        wf_pairs(tags),
    ensures
        wf_pairs(kept_tags(tags, strip)),
    decreases tags.len(),
{
    reveal(Seq::filter);
    if tags.len() > 0 {
        assert(wf_pairs(tags.drop_last()));
        lemma_kept_tags_wf(tags.drop_last(), strip);
        let f = kept_tags(tags, strip);
        let g = kept_tags(tags.drop_last(), strip);
        assert(tags.last() == tags[tags.len() - 1]);
        assert forall|i: int|
            0 <= i < f.len() implies wf_key((#[trigger] f[i]).0) && wf_value(f[i].1) by {
            if i < g.len() {
                assert(f[i] == g[i]);
            } else {
                assert(f[i] == tags.last());
            }
        }
    }
}

/// Parsing tags back out of their serialization: with a non-tag terminator
/// byte following, the serialized pairs come back exactly, with the tail
/// untouched.
proof fn lemma_tags_round_trip(ps: Seq<(Seq<u8>, Seq<u8>)>, tail: Seq<u8>)
    requires
        wf_pairs(ps),
        tail.len() > 0,
        is_term(tail[0]),
        tail[0] != COMMA,
    ensures
        spec_tags(ser_tags(ps) + tail) == (ps, tail),
    decreases ps.len(),
{
    if ps.len() == 0 {
        assert(ser_tags(ps) + tail =~= tail);
        assert(spec_tags(tail) == (Seq::<(Seq<u8>, Seq<u8>)>::empty(), tail));
    } else {
        let k = ps[0].0;
        let v = ps[0].1;
        let rest_ser = ser_tags(ps.drop_first()) + tail;
        let s = ser_tags(ps) + tail;
        assert(wf_key(k) && wf_value(v));
        assert(s =~= seq![COMMA] + (k + (seq![EQUALS] + (v + rest_ser))));
        assert(s[0] == COMMA);
        assert(s.drop_first() =~= k + (seq![EQUALS] + (v + rest_ser)));
        assert(is_key_end((seq![EQUALS] + (v + rest_ser))[0]));
        lemma_split_at_delim_concat(k, seq![EQUALS] + (v + rest_ser), |b: u8| is_key_end(b));
        assert((seq![EQUALS] + (v + rest_ser)).drop_first() =~= v + rest_ser);
        if ps.drop_first().len() == 0 {
            assert(rest_ser =~= tail);
            assert(rest_ser.len() > 0 && is_term(rest_ser[0]));
        } else {
            assert(rest_ser[0] == COMMA);
            assert(rest_ser.len() > 0 && is_term(rest_ser[0]));
        }
        lemma_split_at_delim_concat(v, rest_ser, |b: u8| is_term(b));
        assert(crate::parser::spec_tag(s) == Some(((k, v), rest_ser)));
        assert(s.len() == 1 + k.len() + 1 + v.len() + rest_ser.len());
        lemma_tags_round_trip(ps.drop_first(), tail);
        assert(spec_tags(s) == (seq![(k, v)] + ps.drop_first(), tail));
        assert(seq![(k, v)] + ps.drop_first() =~= ps);
    }
}

/// Parsing the fields back out of their serialization.
proof fn lemma_fields_round_trip(ps: Seq<(Seq<u8>, Seq<u8>)>, tail: Seq<u8>)
    requires
        wf_pairs(ps),
        ps.len() >= 1,
        tail.len() > 0,
        is_term(tail[0]),
        tail[0] != COMMA,
    ensures
        spec_fields(ser_fields(ps) + tail) == Some((ps, tail)),
{
    let k = ps[0].0;
    let v = ps[0].1;
    let rest_ser = ser_tags(ps.drop_first()) + tail;
    let s = ser_fields(ps) + tail;
    assert(wf_key(k) && wf_value(v));
    assert(s =~= seq![SPACE] + (k + (seq![EQUALS] + (v + rest_ser))));
    assert(s[0] == SPACE);
    assert(s.drop_first() =~= k + (seq![EQUALS] + (v + rest_ser)));
    assert(is_key_end((seq![EQUALS] + (v + rest_ser))[0]));
    lemma_split_at_delim_concat(k, seq![EQUALS] + (v + rest_ser), |b: u8| is_key_end(b));
    assert((seq![EQUALS] + (v + rest_ser)).drop_first() =~= v + rest_ser);
    if ps.drop_first().len() == 0 {
        assert(rest_ser =~= tail);
        assert(rest_ser.len() > 0 && is_term(rest_ser[0]));
    } else {
        assert(rest_ser[0] == COMMA);
        assert(rest_ser.len() > 0 && is_term(rest_ser[0]));
    }
    lemma_split_at_delim_concat(v, rest_ser, |b: u8| is_term(b));
    assert(crate::parser::spec_first_field(s) == Some(((k, v), rest_ser)));
    assert(wf_pairs(ps.drop_first()));
    lemma_tags_round_trip(ps.drop_first(), tail);
    assert(spec_fields(s) == Some((seq![(k, v)] + ps.drop_first(), tail)));
    assert(seq![(k, v)] + ps.drop_first() =~= ps);
}

/// LAW (decode round trip): a well-formed record, re-serialized with any
/// strip set, decodes back to the same measurement, the kept tags in their
/// original order, the same fields and the same timestamp. With an empty
/// strip set the record comes back whole (`lemma_round_trip_identity`).
#[verifier::rlimit(100)]
pub proof fn lemma_round_trip(r: Record, strip: Set<Seq<u8>>)
    requires
        wf_record(r),
    ensures
        spec_record(serialize_record(r.measurement, r.tags, strip, r.fields, r.timestamp))
            == Some(
            Record {
                measurement: r.measurement,
                tags: kept_tags(r.tags, strip),
                fields: r.fields,
                timestamp: r.timestamp,
            },
        ),
{
    lemma_kept_tags_wf(r.tags, strip);
    let tags2 = kept_tags(r.tags, strip);
    let s = serialize_record(r.measurement, r.tags, strip, r.fields, r.timestamp);
    let tail2 = ser_timestamp(r.timestamp) + seq![NEWLINE];
    let tail1 = ser_fields(r.fields) + tail2;
    let after_m = ser_tags(tags2) + tail1;
    assert(s =~= r.measurement + after_m);
    assert(ser_fields(r.fields)[0] == SPACE);
    if tags2.len() == 0 {
        assert(after_m =~= tail1);
        assert(after_m[0] == SPACE);
    } else {
        assert(after_m[0] == COMMA);
    }
    assert(is_meas_delim(after_m[0]));
    lemma_split_at_delim_concat(r.measurement, after_m, |b: u8| is_meas_delim(b));
    assert(spec_measurement(s) == Some((r.measurement, after_m)));
    assert(tail1[0] == SPACE && is_term(tail1[0]) && tail1[0] != COMMA);
    lemma_tags_round_trip(tags2, tail1);
    assert(spec_tags(after_m) == (tags2, tail1));
    match r.timestamp {
        Some(d) => {
            assert(tail2 =~= seq![SPACE] + (d + seq![NEWLINE]));
            assert(tail2[0] == SPACE);
        },
        None => {
            assert(tail2 =~= seq![NEWLINE]);
            assert(tail2[0] == NEWLINE);
        },
    }
    assert(is_term(tail2[0]) && tail2[0] != COMMA);
    lemma_fields_round_trip(r.fields, tail2);
    assert(spec_fields(tail1) == Some((r.fields, tail2)));
    match r.timestamp {
        Some(d) => {
            assert(tail2[1] == d[0]);
            assert(is_digit(tail2[1]));
            assert(tail2.drop_first() =~= d + seq![NEWLINE]);
            assert(!is_digit(NEWLINE));
            lemma_split_at_delim_concat(d, seq![NEWLINE], |b: u8| !is_digit(b));
            assert(crate::parser::spec_digit_run(d + seq![NEWLINE]) == (d, seq![NEWLINE]));
            assert(spec_timestamp(tail2) == (Some(d), seq![NEWLINE]));
        },
        None => {
            assert(tail2.drop_first() =~= Seq::<u8>::empty());
            assert(spec_timestamp(tail2) == (None::<Seq<u8>>, Seq::<u8>::empty()));
        },
    }
}

/// LAW (decode round trip, no stripping): with nothing stripped the record
/// decodes back to itself exactly.
pub proof fn lemma_round_trip_identity(r: Record)
    requires
        wf_record(r),
    ensures
        spec_record(
            serialize_record(r.measurement, r.tags, Set::empty(), r.fields, r.timestamp),
        ) == Some(r),
{
    assert(forall|i: int|
        0 <= i < r.tags.len() ==> !Set::<Seq<u8>>::empty().contains((#[trigger] r.tags[i]).0));
    lemma_kept_tags_all(r.tags, Set::empty());
    lemma_round_trip(r, Set::empty());
}

} // verus!
