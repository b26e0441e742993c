//! How the distance of two vectors is measured.

use vstd::prelude::*;

verus! {

/// The metrics that an index can be built for.
#[derive(Debug, Clone, Copy, PartialEq, Eq, Structural)]
pub enum MetricType {
    L2,
    InnerProduct,
    Cosine,
}

impl MetricType {
    /// The number that stands for the metric in a file.
    pub open spec fn spec_code(self) -> u32 {
        match self {
            MetricType::L2 => 0,
            MetricType::InnerProduct => 1,
            MetricType::Cosine => 2,
        }
    }

    /// The metric that a number in a file stands for.
    pub open spec fn spec_from_code(code: u32) -> Option<MetricType> {
        if code == 0 {
            Some(MetricType::L2)
        } else if code == 1 {
            Some(MetricType::InnerProduct)
        } else if code == 2 {
            Some(MetricType::Cosine)
        } else {
            None
        }
    }

    /// The number that stands for the metric in a file.
    pub fn code(self) -> (code: u32)
        ensures
            code == self.spec_code(),
    {
        match self {
            MetricType::L2 => 0,
            MetricType::InnerProduct => 1,
            MetricType::Cosine => 2,
        }
    }

    /// The metric that a number in a file stands for.
    pub fn from_code(code: u32) -> (metric: Option<MetricType>)
        ensures
            metric == MetricType::spec_from_code(code),
    {
        match code {
            0 => Some(MetricType::L2),
            1 => Some(MetricType::InnerProduct),
            2 => Some(MetricType::Cosine),
            _ => None,
        }
    }
}

/// Every metric is found again by its number, and no other number is one.
pub proof fn lemma_metric_roundtrip(metric: MetricType, code: u32)
    ensures
        MetricType::spec_from_code(metric.spec_code()) == Some(metric),
        MetricType::spec_from_code(code) matches Some(found) ==> found.spec_code() == code,
{
}

} // verus!
