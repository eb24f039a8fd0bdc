//! The EXPLAIN output the plan cache is filled from.
use vstd::prelude::*;

verus! {

/// The EXPLAIN text returned for every query: a single sequential scan.
pub open spec fn seq_scan_explain() -> Seq<char> {
    "{\"Plan\": {\"Node Type\": \"Seq Scan\", \"Total Cost\": 100.0, \"Plan Rows\": 1000}}"@
}

/// The EXPLAIN output (JSON) for the query `query_id`.
pub fn get_explain_output(query_id: &str) -> (explain: String)
    ensures
        explain@ == seq_scan_explain(),
{
    "{\"Plan\": {\"Node Type\": \"Seq Scan\", \"Total Cost\": 100.0, \"Plan Rows\": 1000}}".to_owned()
}

} // verus!
