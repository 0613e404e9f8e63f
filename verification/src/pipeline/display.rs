//! The order in which the lines of the final table are shown.

use vstd::prelude::*;
use std::collections::BTreeMap;
use crate::pipeline::analysis::table_indices;
use crate::pipeline::data::HurricaneFinalAnalysis;

verus! {

/// All lines of a table with their indices, by ascending index: the order in
/// which the tracks were read, whatever the order in which they were analyzed
/// and merged.
pub fn all_analyses(analysis_map: BTreeMap<usize, HurricaneFinalAnalysis>) -> (lines: Vec<
    (usize, HurricaneFinalAnalysis),
>)
    ensures
        forall|i: int, j: int| 0 <= i < j < lines@.len() ==> lines@[i].0 < lines@[j].0,
        forall|i: int|
            0 <= i < lines@.len() ==> analysis_map@.contains_key(#[trigger] lines@[i].0)
                && lines@[i].1 == analysis_map@[lines@[i].0],
        forall|index: usize| #[trigger]
            analysis_map@.contains_key(index) ==> exists|i: int|
                0 <= i < lines@.len() && #[trigger] lines@[i].0 == index,
{
    let mut rest = analysis_map;
    let indices = table_indices(&rest);
    let mut lines: Vec<(usize, HurricaneFinalAnalysis)> = Vec::new();
    let mut i: usize = 0;
    while i < indices.len()
        invariant
            i <= indices.len(),
            indices@.to_set() == analysis_map@.dom(),
            forall|a: int, b: int| 0 <= a < b < indices@.len() ==> indices@[a] < indices@[b],
            forall|j: int|
                i <= j < indices@.len() ==> rest@.contains_key(#[trigger] indices@[j])
                    && rest@[indices@[j]] == analysis_map@[indices@[j]],
            lines@.len() == i,
            forall|j: int|
                0 <= j < i ==> (#[trigger] lines@[j]).0 == indices@[j] && lines@[j].1
                    == analysis_map@[indices@[j]],
        decreases indices.len() - i,
    {
        let index = indices[i];
        proof {
            assert(indices@.to_set().contains(indices@[i as int]));
        }
        match rest.remove(&index) {
            Some(line) => {
                lines.push((index, line));
            },
            None => {},
        }
        i += 1;
    }
    proof {
        assert forall|index: usize| #[trigger] analysis_map@.contains_key(index) implies exists|
            i: int,
        |
            0 <= i < lines@.len() && #[trigger] lines@[i].0 == index by {
            assert(indices@.to_set().contains(index));
            let k = choose|k: int| 0 <= k < indices@.len() && indices@[k] == index;
            assert(lines@[k].0 == index);
        }
        assert forall|i: int| 0 <= i < lines@.len() implies analysis_map@.contains_key(
            #[trigger] lines@[i].0,
        ) && lines@[i].1 == analysis_map@[lines@[i].0] by {
            assert(indices@.to_set().contains(indices@[i]));
        }
    }
    lines
}

} // verus!
