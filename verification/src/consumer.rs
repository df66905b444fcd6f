//! Plans the reduction stream for one finalized index entry: which messages
//! the consumer emits for the container's state, which part files it reads,
//! and how many lines each holds.

use vstd::prelude::*;
use vstd::string::StringExecFns;
use crate::map_container::{part_path_spec, ContainerState, MapContainer};

verus! {

/// One part file the consumer reads: its path and its owed line count.
pub struct PartPlan {
    pub path: String,
    pub line_count: usize,
}

/// What the consumer emits for one `(key, container)` pair: the KeyInit
/// count, one plan per existing part file, and the in-memory values that
/// form a synthetic final part, if any.
pub struct ConsumerPlan {
    pub key: String,
    pub skip: bool,
    pub key_init_parts: usize,
    pub file_parts: Vec<PartPlan>,
    pub index_values: Option<Vec<String>>,
}

/// Builds the consumer plan for one index entry. A container with no data
/// is skipped; flushed parts are read file by file with their recorded line
/// counts; values still in memory are emitted as one synthetic final part
/// holding a single line.
pub fn consumer_plan(key: &String, container: &MapContainer, root: &str) -> (r: ConsumerPlan)
    requires
        container.wf(),
        container.total_parts < usize::MAX,
    ensures
        r.key@ == key@,
        r.skip <==> container.state_spec() is NoData,
        container.state_spec() is IndexAndFile ==> r.key_init_parts == container.total_parts + 1,
        container.state_spec() is FileOnly ==> r.key_init_parts == container.total_parts,
        container.state_spec() is IndexOnly ==> r.key_init_parts == 1,
        r.index_values matches Some(vs) ==> vs.deep_view() == container.values.deep_view(),
        r.index_values is Some <==> container.values@.len() > 0,
        r.file_parts@.len() == container.total_parts,
        forall|p: int|
            0 <= p < r.file_parts@.len() ==> (#[trigger] r.file_parts@[p]).path@ == part_path_spec(
                root@,
                container.encoded_key@,
                p as nat,
            ) && r.file_parts@[p].line_count == container.lines_per_part@[p],
{
    let state = container.state();
    let skip = match state {
        ContainerState::NoData => true,
        _ => false,
    };
    let key_init_parts: usize = match state {
        ContainerState::IndexAndFile => container.total_parts + 1,
        ContainerState::FileOnly => container.total_parts,
        _ => 1,
    };
    let mut file_parts: Vec<PartPlan> = Vec::new();
    let mut parts = container.parts();
    loop
        invariant
            container.wf(),
            parts.total == container.total_parts,
            parts.current <= parts.total,
            file_parts@.len() == parts.current,
            forall|p: int|
                0 <= p < file_parts@.len() ==> (#[trigger] file_parts@[p]).path@
                    == part_path_spec(root@, container.encoded_key@, p as nat)
                    && file_parts@[p].line_count == container.lines_per_part@[p],
        ensures
            file_parts@.len() == container.total_parts,
            forall|p: int|
                0 <= p < file_parts@.len() ==> (#[trigger] file_parts@[p]).path@
                    == part_path_spec(root@, container.encoded_key@, p as nat)
                    && file_parts@[p].line_count == container.lines_per_part@[p],
        decreases parts.total - parts.current,
    {
        let p = match parts.next() {
            Some(p) => p,
            None => {
                break ;
            },
        };
        let path = match container.part_file_path(root, p) {
            Ok(path) => path,
            Err(_) => {
                proof {
                    assert(false);
                }
                return ConsumerPlan {
                    key: key.clone(),
                    skip: true,
                    key_init_parts: 0,
                    file_parts: Vec::new(),
                    index_values: None,
                };
            },
        };
        let line_count = match container.part_line_count(p) {
            Ok(c) => c,
            Err(_) => {
                proof {
                    assert(false);
                }
                return ConsumerPlan {
                    key: key.clone(),
                    skip: true,
                    key_init_parts: 0,
                    file_parts: Vec::new(),
                    index_values: None,
                };
            },
        };
        file_parts.push(PartPlan { path, line_count });
    }
    let index_values: Option<Vec<String>> = if container.values.len() > 0 {
        let vs = container.values.clone();
        proof {
            assert forall|i: int| 0 <= i < vs@.len() implies (#[trigger] vs@[i])@
                == container.values@[i]@ by {
                assert(cloned::<String>(container.values[i], vs[i]));
            }
            assert(vs.deep_view() =~= container.values.deep_view());
        }
        Some(vs)
    } else {
        None
    };
    ConsumerPlan { key: key.clone(), skip, key_init_parts, file_parts, index_values }
}

} // verus!
