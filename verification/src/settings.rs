//! Configuration data: the per-measurement policies as the configuration
//! loader hands them over, and the construction of the read-only policy
//! table from them. Reading configuration files or the environment is the
//! surrounding program's job; the core only consumes the result.

use vstd::prelude::*;
use vstd::string::StrSliceExecFns;
use vstd::utf8::encode_utf8;

use crate::processors::{MetricProcessor, PolicyTable};

verus! {

/// One measurement's policy: where its records are routed, and which tag
/// keys are stripped from them.
pub struct Measurement {
    pub server: String,
    pub db: String,
    pub rp: Option<String>,
    pub strip_tags: Option<Vec<String>>,
}

/// The loaded configuration: measurement names with their policies, in
/// configuration order.
pub struct Settings {
    pub measurements: Option<Vec<(String, Measurement)>>,
}

/// The strip set a policy configures: the UTF-8 bytes of each listed key.
pub open spec fn spec_strip_set(m: Measurement) -> Set<Seq<u8>> {
    match m.strip_tags {
        Some(v) => Set::new(
            |k: Seq<u8>| exists|i: int| 0 <= i < v@.len() && k == encode_utf8((#[trigger] v@[i])@),
        ),
        None => Set::empty(),
    }
}

/// Builds the policy table: one entry per configured measurement, in
/// configuration order, keyed by the measurement name's UTF-8 bytes, each
/// stripping exactly its configured tag keys.
pub fn build_processors(settings: &Settings) -> (t: PolicyTable)
    ensures
        match settings.measurements {
            Some(m) => t.entries@.len() == m@.len() && forall|i: int|
                0 <= i < m@.len() ==> (#[trigger] t.entries@[i]).0@ == encode_utf8(m@[i].0@)
                    && t.entries@[i].1.strip_set() == spec_strip_set(m@[i].1),
            None => t.entries@.len() == 0,
        },
{
    let mut entries: Vec<(Vec<u8>, MetricProcessor)> = Vec::new();
    match &settings.measurements {
        Some(m) => {
            let mut i: usize = 0;
            while i < m.len()
                invariant
                    i <= m@.len(),
                    entries@.len() == i,
                    forall|j: int|
                        0 <= j < i ==> (#[trigger] entries@[j]).0@ == encode_utf8(m@[j].0@)
                            && entries@[j].1.strip_set() == spec_strip_set(m@[j].1),
                decreases m@.len() - i,
            {
                let entry = &m[i];
                let key_bytes = entry.0.as_str().as_bytes_vec();
                match &entry.1.strip_tags {
                    Some(sv) => {
                        let mut keys: Vec<Vec<u8>> = Vec::new();
                        let mut j: usize = 0;
                        while j < sv.len()
                            invariant
                                j <= sv@.len(),
                                keys@.len() == j,
                                forall|q: int|
                                    0 <= q < j ==> (#[trigger] keys@[q])@ == encode_utf8(
                                        sv@[q]@,
                                    ),
                            decreases sv@.len() - j,
                        {
                            keys.push(sv[j].as_str().as_bytes_vec());
                            j = j + 1;
                        }
                        let processor = MetricProcessor { tags: keys };
                        proof {
                            let ss = spec_strip_set(m@[i as int].1);
                            assert forall|k: Seq<u8>|
                                processor.strip_set().contains(k) implies ss.contains(k) by {
                                let q = choose|q: int|
                                    0 <= q < processor.tags@.len()
                                        && (#[trigger] processor.tags@[q])@ == k;
                                assert(0 <= q < sv@.len() && k == encode_utf8(
                                    (#[trigger] sv@[q])@,
                                ));
                            }
                            assert forall|k: Seq<u8>|
                                ss.contains(k) implies processor.strip_set().contains(k) by {
                                let q = choose|q: int|
                                    0 <= q < sv@.len() && k == encode_utf8((#[trigger] sv@[q])@);
                                assert(0 <= q < processor.tags@.len()
                                    && (#[trigger] processor.tags@[q])@ == k);
                            }
                            assert(processor.strip_set() =~= ss);
                        }
                        entries.push((key_bytes, processor));
                    },
                    None => {
                        let processor = MetricProcessor { tags: Vec::new() };
                        proof {
                            assert(processor.strip_set() =~= spec_strip_set(m@[i as int].1));
                        }
                        entries.push((key_bytes, processor));
                    },
                }
                i = i + 1;
            }
        },
        None => {},
    }
    PolicyTable { entries }
}

} // verus!
