//! Reshaping aggregated records into chart series.
//!
//! Each of the four counters becomes a series of (month label, value)
//! pairs across all records, in record order; the charting collaborator
//! only draws what these functions produce.

use crate::monthly_stat::MonthlyStat;
use vstd::prelude::*;

verus! {

/// The month labels of a run of records, in order.
pub fn month_labels(stats: &Vec<MonthlyStat>) -> (r: Vec<String>)
    ensures
        r@.len() == stats@.len(),
        forall|i: int| 0 <= i < r@.len() ==> (#[trigger] r@[i])@ == stats@[i]@.month,
{
    let mut out: Vec<String> = Vec::new();
    let mut i: usize = 0;
    while i < stats.len()
        invariant
            i <= stats@.len(),
            out@.len() == i,
            forall|k: int| 0 <= k < i ==> (#[trigger] out@[k])@ == stats@[k]@.month,
        decreases stats@.len() - i,
    {
        out.push(stats[i].month.clone());
        i = i + 1;
    }
    out
}

/// The users counter of each record, paired with its month label, in order.
pub fn series_users(stats: &Vec<MonthlyStat>) -> (r: Vec<(String, u32)>)
    ensures
        r@.len() == stats@.len(),
        forall|i: int|
            0 <= i < r@.len() ==> (#[trigger] r@[i]).0@ == stats@[i]@.month && r@[i].1
                == stats@[i].users,
{
    let mut out: Vec<(String, u32)> = Vec::new();
    let mut i: usize = 0;
    while i < stats.len()
        invariant
            i <= stats@.len(),
            out@.len() == i,
            forall|k: int|
                0 <= k < i ==> (#[trigger] out@[k]).0@ == stats@[k]@.month && out@[k].1
                    == stats@[k].users,
        decreases stats@.len() - i,
    {
        out.push((stats[i].month.clone(), stats[i].users));
        i = i + 1;
    }
    out
}

/// The lessons counter of each record, paired with its month label, in
/// order.
pub fn series_lessons(stats: &Vec<MonthlyStat>) -> (r: Vec<(String, u32)>)
    ensures
        r@.len() == stats@.len(),
        forall|i: int|
            0 <= i < r@.len() ==> (#[trigger] r@[i]).0@ == stats@[i]@.month && r@[i].1
                == stats@[i].lessons,
{
    let mut out: Vec<(String, u32)> = Vec::new();
    let mut i: usize = 0;
    while i < stats.len()
        invariant
            i <= stats@.len(),
            out@.len() == i,
            forall|k: int|
                0 <= k < i ==> (#[trigger] out@[k]).0@ == stats@[k]@.month && out@[k].1
                    == stats@[k].lessons,
        decreases stats@.len() - i,
    {
        out.push((stats[i].month.clone(), stats[i].lessons));
        i = i + 1;
    }
    out
}

/// The project submissions counter of each record, paired with its month
/// label, in order.
pub fn series_project_submissions(stats: &Vec<MonthlyStat>) -> (r: Vec<(String, u32)>)
    ensures
        r@.len() == stats@.len(),
        forall|i: int|
            0 <= i < r@.len() ==> (#[trigger] r@[i]).0@ == stats@[i]@.month && r@[i].1
                == stats@[i].project_submissions,
{
    let mut out: Vec<(String, u32)> = Vec::new();
    let mut i: usize = 0;
    while i < stats.len()
        invariant
            i <= stats@.len(),
            out@.len() == i,
            forall|k: int|
                0 <= k < i ==> (#[trigger] out@[k]).0@ == stats@[k]@.month && out@[k].1
                    == stats@[k].project_submissions,
        decreases stats@.len() - i,
    {
        out.push((stats[i].month.clone(), stats[i].project_submissions));
        i = i + 1;
    }
    out
}

/// The projects liked counter of each record, paired with its month label,
/// in order.
pub fn series_projects_liked(stats: &Vec<MonthlyStat>) -> (r: Vec<(String, u32)>)
    ensures
        r@.len() == stats@.len(),
        forall|i: int|
            0 <= i < r@.len() ==> (#[trigger] r@[i]).0@ == stats@[i]@.month && r@[i].1
                == stats@[i].projects_liked,
{
    let mut out: Vec<(String, u32)> = Vec::new();
    let mut i: usize = 0;
    while i < stats.len()
        invariant
            i <= stats@.len(),
            out@.len() == i,
            forall|k: int|
                0 <= k < i ==> (#[trigger] out@[k]).0@ == stats@[k]@.month && out@[k].1
                    == stats@[k].projects_liked,
        decreases stats@.len() - i,
    {
        out.push((stats[i].month.clone(), stats[i].projects_liked));
        i = i + 1;
    }
    out
}

} // verus!
