//! Distance metrics.
use vstd::prelude::*;
use crate::error::{Failure, VectLiteError};
use crate::text::{concat2, concat3, decimal, decimal_text, lower_text, lowers_to};

verus! {

/// How vectors are compared. A metric is fixed when a database is created.
#[derive(Clone, Copy, Debug, PartialEq, Eq, Structural)]
pub enum DistanceMetric {
    /// Cosine similarity; higher is more similar.
    Cosine,
    /// Euclidean distance; lower is more similar.
    Euclidean,
    /// Inner product; higher is more similar.
    DotProduct,
    /// Manhattan distance; lower is more similar.
    Manhattan,
}

/// The tag byte of a metric.
pub open spec fn metric_tag(m: DistanceMetric) -> u8 {
    match m {
        DistanceMetric::Cosine => 0,
        DistanceMetric::Euclidean => 1,
        DistanceMetric::DotProduct => 2,
        DistanceMetric::Manhattan => 3,
    }
}

/// The metric with a tag.
pub open spec fn metric_of_tag(tag: nat) -> Result<DistanceMetric, Failure> {
    if tag == 0 {
        Ok(DistanceMetric::Cosine)
    } else if tag == 1 {
        Ok(DistanceMetric::Euclidean)
    } else if tag == 2 {
        Ok(DistanceMetric::DotProduct)
    } else if tag == 3 {
        Ok(DistanceMetric::Manhattan)
    } else {
        Err(Failure::InvalidFormat("unknown distance metric tag "@ + decimal(tag)))
    }
}

/// The name of a metric.
pub open spec fn metric_name(m: DistanceMetric) -> Seq<char> {
    match m {
        DistanceMetric::Cosine => "cosine"@,
        DistanceMetric::Euclidean => "euclidean"@,
        DistanceMetric::DotProduct => "dotproduct"@,
        DistanceMetric::Manhattan => "manhattan"@,
    }
}

/// The metric that a name stands for; the case of ASCII letters does not matter.
pub open spec fn metric_of_name(name: Seq<char>) -> Result<DistanceMetric, Failure> {
    let lower = lower_text(name);
    if lower == "cosine"@ {
        Ok(DistanceMetric::Cosine)
    } else if lower == "euclidean"@ || lower == "l2"@ {
        Ok(DistanceMetric::Euclidean)
    } else if lower == "dotproduct"@ || lower == "dot"@ || lower == "dot_product"@ || lower == "ip"@
        || lower == "inner_product"@ {
        Ok(DistanceMetric::DotProduct)
    } else if lower == "manhattan"@ || lower == "l1"@ {
        Ok(DistanceMetric::Manhattan)
    } else {
        Err(
            Failure::InvalidFormat(
                "unknown distance metric '"@ + name
                    + "'; valid options: cosine, euclidean, dotproduct, manhattan"@,
            ),
        )
    }
}

impl DistanceMetric {
    /// The tag byte in the file format.
    pub fn to_tag(self) -> (r: u8)
        ensures
            r == metric_tag(self),
    {
        match self {
            DistanceMetric::Cosine => 0,
            DistanceMetric::Euclidean => 1,
            DistanceMetric::DotProduct => 2,
            DistanceMetric::Manhattan => 3,
        }
    }

    /// The metric with a tag byte.
    pub fn from_tag(tag: u8) -> (r: Result<DistanceMetric, VectLiteError>)
        ensures
            match metric_of_tag(tag as nat) {
                Ok(m) => r matches Ok(x) && x == m,
                Err(e) => r matches Err(x) && x@ == e,
            },
    {
        match tag {
            0 => Ok(DistanceMetric::Cosine),
            1 => Ok(DistanceMetric::Euclidean),
            2 => Ok(DistanceMetric::DotProduct),
            3 => Ok(DistanceMetric::Manhattan),
            _ => {
                let d = decimal_text(tag as u64);
                Err(
                    VectLiteError::InvalidFormat(concat2("unknown distance metric tag ", d.as_str())),
                )
            },
        }
    }

    /// The name of the metric.
    pub fn name(self) -> (r: &'static str)
        ensures
            r@ == metric_name(self),
    {
        match self {
            DistanceMetric::Cosine => "cosine",
            DistanceMetric::Euclidean => "euclidean",
            DistanceMetric::DotProduct => "dotproduct",
            DistanceMetric::Manhattan => "manhattan",
        }
    }

    /// The metric with a name or one of its aliases.
    pub fn from_name(name: &str) -> (r: Result<DistanceMetric, VectLiteError>)
        ensures
            match metric_of_name(name@) {
                Ok(m) => r matches Ok(x) && x == m,
                Err(e) => r matches Err(x) && x@ == e,
            },
    {
        if lowers_to(name, "cosine") {
            Ok(DistanceMetric::Cosine)
        } else if lowers_to(name, "euclidean") || lowers_to(name, "l2") {
            Ok(DistanceMetric::Euclidean)
        } else if lowers_to(name, "dotproduct") || lowers_to(name, "dot") || lowers_to(
            name,
            "dot_product",
        ) || lowers_to(name, "ip") || lowers_to(name, "inner_product") {
            Ok(DistanceMetric::DotProduct)
        } else if lowers_to(name, "manhattan") || lowers_to(name, "l1") {
            Ok(DistanceMetric::Manhattan)
        } else {
            Err(
                VectLiteError::InvalidFormat(
                    concat3(
                        "unknown distance metric '",
                        name,
                        "'; valid options: cosine, euclidean, dotproduct, manhattan",
                    ),
                ),
            )
        }
    }

    /// Whether a higher raw value means more similar.
    pub fn is_similarity(self) -> (r: bool)
        ensures
            r == (self == DistanceMetric::Cosine || self == DistanceMetric::DotProduct),
    {
        match self {
            DistanceMetric::Cosine => true,
            DistanceMetric::DotProduct => true,
            _ => false,
        }
    }
}

impl Default for DistanceMetric {
    fn default() -> (r: Self)
        ensures
            r == DistanceMetric::Cosine,
    {
        DistanceMetric::Cosine
    }
}

/// Every metric is the metric of its tag.
pub proof fn law_metric_tag_roundtrip(m: DistanceMetric)
    ensures
        metric_of_tag(metric_tag(m) as nat) == Ok::<DistanceMetric, Failure>(m),
{
}

/// Every metric is the metric of its name.
pub proof fn law_metric_name_roundtrip(m: DistanceMetric)
    ensures
        metric_of_name(metric_name(m)) == Ok::<DistanceMetric, Failure>(m),
{
    reveal_strlit("cosine");
    reveal_strlit("euclidean");
    reveal_strlit("dotproduct");
    reveal_strlit("manhattan");
    reveal_strlit("l2");
    reveal_strlit("dot");
    reveal_strlit("dot_product");
    reveal_strlit("ip");
    reveal_strlit("inner_product");
    reveal_strlit("l1");
    let name = metric_name(m);
    assert(lower_text(name) =~= name);
    assert("manhattan"@[0] != "cosine"@[0]);
    assert("manhattan"@[0] != "euclidean"@[0]);
    assert("manhattan"@[0] != "l2"@[0]);
    assert("manhattan"@[0] != "dotproduct"@[0]);
    assert("manhattan"@[0] != "dot"@[0]);
    assert("manhattan"@[0] != "dot_product"@[0]);
    assert("manhattan"@[0] != "ip"@[0]);
    assert("manhattan"@[0] != "inner_product"@[0]);
    assert("dotproduct"@[0] != "cosine"@[0]);
    assert("dotproduct"@[0] != "euclidean"@[0]);
    assert("dotproduct"@[0] != "l2"@[0]);
    assert("euclidean"@[0] != "cosine"@[0]);
}

} // verus!
