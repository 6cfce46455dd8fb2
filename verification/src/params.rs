//! Parameter sets of the pipeline stages and their validation.
//!
//! The real-valued parameters (error cutoff, scale, distance threshold) are
//! carried through unchanged as a type parameter `F`; the library only decides
//! which value ends up where and when a parameter set is rejected.
use crate::error::{ClusterError, TriplclustError, TripletError};
use vstd::prelude::*;

verus! {

/// The count that a signed argument stands for, when it is a positive number.
pub open spec fn positive_count(val: i32) -> Option<usize> {
    if val <= 0 {
        None
    } else {
        Some(val as usize)
    }
}

/// Converts a signed argument into a count that must be at least one.
/// Zero and negative values are rejected with `None`.
pub fn validate_i32_to_nonzero_usize(val: i32) -> (r: Option<usize>)
    ensures
        r == positive_count(val),
        r matches Some(v) ==> v > 0,
        r is Some <==> val > 0,
        r matches Some(v) ==> v as int == val as int,
{
    if val < 0 {
        None
    } else if val == 0 {
        None
    } else {
        Some(val as usize)
    }
}

/// Linkage criteria of the hierarchical clustering.
#[derive(Debug, Clone, Copy, PartialEq, Eq, Structural)]
pub enum Linkage {
    Single,
    Complete,
    Average,
    Median,
}

/// The linkage that a name stands for, if it is one of the four known names.
pub open spec fn linkage_named(name: Seq<char>) -> Option<Linkage> {
    if name == "single"@ {
        Some(Linkage::Single)
    } else if name == "complete"@ {
        Some(Linkage::Complete)
    } else if name == "average"@ {
        Some(Linkage::Average)
    } else if name == "median"@ {
        Some(Linkage::Median)
    } else {
        None
    }
}

/// `r` is the rejection of the linkage name `name`.
pub open spec fn is_linkage_rejection<T>(r: Result<T, TriplclustError>, name: Seq<char>) -> bool {
    r matches Err(TriplclustError::Cluster(ClusterError::InvalidLinkage(s))) && s@ == name
}

fn same_text(a: &str, b: &str) -> (r: bool)
    ensures
        r == (a@ == b@),
{
    let x = String::from_str(a);
    let y = String::from_str(b);
    x == y
}

impl Linkage {
    /// Reads a linkage from its name: `single`, `complete`, `average` or `median`.
    /// Any other name is rejected, and the error carries the name.
    pub fn parse(value: &str) -> (r: Result<Linkage, TriplclustError>)
        ensures
            match linkage_named(value@) {
                Some(l) => r == Ok::<Linkage, TriplclustError>(l),
                None => is_linkage_rejection(r, value@),
            },
    {
        if same_text(value, "single") {
            Ok(Linkage::Single)
        } else if same_text(value, "complete") {
            Ok(Linkage::Complete)
        } else if same_text(value, "average") {
            Ok(Linkage::Average)
        } else if same_text(value, "median") {
            Ok(Linkage::Median)
        } else {
            Err(TriplclustError::Cluster(ClusterError::InvalidLinkage(String::from_str(value))))
        }
    }
}

/// Parameters of triplet formation.
#[derive(Debug, Clone)]
pub struct TripletParams<F> {
    /// The neighborhood size in number of points (at least one).
    pub neighborhood_size: usize,
    /// The maximum number of triplet candidates to keep for each point.
    pub max_candidates: usize,
    /// The error cutoff: `1 - cos(alpha)` must not exceed it.
    pub error_cutoff: F,
}

impl<F> TripletParams<F> {
    /// Builds triplet parameters from signed arguments. The neighborhood size is
    /// checked first, then the number of candidates; both must be positive.
    pub fn from_fullargs(n_size: i32, max_c: i32, e_c: F) -> (r: Result<Self, TriplclustError>)
        ensures
            n_size <= 0 ==> r == Err::<Self, TriplclustError>(
                TriplclustError::Triplet(TripletError::InvalidNeighborhoodSize(n_size)),
            ),
            n_size > 0 && max_c <= 0 ==> r == Err::<Self, TriplclustError>(
                TriplclustError::Triplet(TripletError::InvalidMaxCandidates(max_c)),
            ),
            n_size > 0 && max_c > 0 ==> r == Ok::<Self, TriplclustError>(
                (TripletParams {
                    neighborhood_size: n_size as usize,
                    max_candidates: max_c as usize,
                    error_cutoff: e_c,
                }),
            ),
    {
        let valid_n_size = match validate_i32_to_nonzero_usize(n_size) {
            Some(val) => val,
            None => {
                return Err(TriplclustError::Triplet(TripletError::InvalidNeighborhoodSize(n_size)));
            },
        };
        let valid_max_c = match validate_i32_to_nonzero_usize(max_c) {
            Some(val) => val,
            None => {
                return Err(TriplclustError::Triplet(TripletError::InvalidMaxCandidates(max_c)));
            },
        };
        Ok(TripletParams {
            neighborhood_size: valid_n_size,
            max_candidates: valid_max_c,
            error_cutoff: e_c,
        })
    }
}

/// Parameters of the clustering stage.
#[derive(Debug, Clone)]
pub struct ClusterParams<F> {
    /// Optional cluster distance threshold.
    pub cluster_distance_threshold: Option<F>,
    /// Scale factor used in the triplet distance.
    pub scale: F,
    /// Minimum cluster size.
    pub min_cluster_size: usize,
    /// Clustering linkage.
    pub linkage: Linkage,
}

/// The parameters that `from_fullargs` builds once every argument has passed:
/// the scale implied by dNN wins over an explicit scale.
pub open spec fn full_cluster_params<F>(
    dnn_scale: Option<F>,
    scale: Option<F>,
    cdt: Option<F>,
    mcs: i32,
    linkage: Linkage,
) -> ClusterParams<F> {
    ClusterParams {
        cluster_distance_threshold: cdt,
        scale: match dnn_scale {
            Some(s) => s,
            None => scale.unwrap(),
        },
        min_cluster_size: mcs as usize,
        linkage: linkage,
    }
}

/// Law: the full parameter set keeps the distance threshold and the minimum
/// cluster size it was given and the linkage named, and takes the scale
/// implied by dNN when there is one, the explicit scale otherwise.
pub proof fn lemma_full_params_keep_arguments<F>(
    dnn_scale: Option<F>,
    scale: Option<F>,
    cdt: Option<F>,
    mcs: i32,
    linkage: Linkage,
)
    requires
        mcs > 0,
        dnn_scale is Some || scale is Some,
    ensures
        full_cluster_params(dnn_scale, scale, cdt, mcs, linkage).cluster_distance_threshold == cdt,
        full_cluster_params(dnn_scale, scale, cdt, mcs, linkage).min_cluster_size as int == mcs as int,
        full_cluster_params(dnn_scale, scale, cdt, mcs, linkage).linkage == linkage,
        dnn_scale matches Some(s) ==> full_cluster_params(dnn_scale, scale, cdt, mcs, linkage).scale == s,
        dnn_scale is None ==> full_cluster_params(dnn_scale, scale, cdt, mcs, linkage).scale == scale.unwrap(),
{
}

impl<F> ClusterParams<F> {
    /// Default clustering parameters for a given scale: no distance threshold,
    /// a minimum cluster size of 5, and the named linkage.
    pub fn default_with_scale(scale: F, linkage: &str) -> (r: Result<Self, TriplclustError>)
        ensures
            match linkage_named(linkage@) {
                Some(l) => r == Ok::<Self, TriplclustError>(
                    (ClusterParams {
                        cluster_distance_threshold: None,
                        scale: scale,
                        min_cluster_size: 5,
                        linkage: l,
                    }),
                ),
                None => is_linkage_rejection(r, linkage@),
            },
            r is Ok <==> linkage_named(linkage@) is Some,
            r matches Ok(p) ==> {
                &&& p.cluster_distance_threshold is None
                &&& p.scale == scale
                &&& p.min_cluster_size == 5
                &&& linkage_named(linkage@) == Some(p.linkage)
            },
    {
        let l = Linkage::parse(linkage)?;
        Ok(ClusterParams {
            cluster_distance_threshold: None,
            scale: scale,
            min_cluster_size: 5,
            linkage: l,
        })
    }

    /// Builds clustering parameters from the full argument list.
    ///
    /// `dnn_scale` is the scale implied by the intrinsic length dNN (dNN / 3);
    /// when present it wins over `scale`. The minimum cluster size is checked
    /// first, then that one of the two scales is given, then the linkage name.
    pub fn from_fullargs(
        dnn_scale: Option<F>,
        scale: Option<F>,
        cdt: Option<F>,
        mcs: i32,
        linkage: &str,
    ) -> (r: Result<Self, TriplclustError>)
        ensures
            mcs <= 0 ==> r == Err::<Self, TriplclustError>(
                TriplclustError::Cluster(ClusterError::InvalidMinClusterSize(mcs)),
            ),
            mcs > 0 && dnn_scale is None && scale is None ==> r == Err::<Self, TriplclustError>(
                TriplclustError::Cluster(ClusterError::InvalidArguments),
            ),
            mcs > 0 && (dnn_scale is Some || scale is Some) ==> match linkage_named(linkage@) {
                Some(l) => r == Ok::<Self, TriplclustError>(
                    full_cluster_params(dnn_scale, scale, cdt, mcs, l),
                ),
                None => is_linkage_rejection(r, linkage@),
            },
            r is Ok <==> (mcs > 0 && (dnn_scale is Some || scale is Some) && linkage_named(linkage@) is Some),
            r matches Ok(p) ==> {
                &&& p.cluster_distance_threshold == cdt
                &&& p.min_cluster_size as int == mcs as int
                &&& p.scale == (match dnn_scale {
                    Some(s) => s,
                    None => scale.unwrap(),
                })
                &&& linkage_named(linkage@) == Some(p.linkage)
            },
    {
        let valid_mcs = match validate_i32_to_nonzero_usize(mcs) {
            Some(val) => val,
            None => {
                return Err(TriplclustError::Cluster(ClusterError::InvalidMinClusterSize(mcs)));
            },
        };
        match dnn_scale {
            Some(dnn_val) => {
                let l = Linkage::parse(linkage)?;
                Ok(ClusterParams {
                    cluster_distance_threshold: cdt,
                    scale: dnn_val,
                    min_cluster_size: valid_mcs,
                    linkage: l,
                })
            },
            None => match scale {
                Some(val) => {
                    let l = Linkage::parse(linkage)?;
                    Ok(ClusterParams {
                        cluster_distance_threshold: cdt,
                        scale: val,
                        min_cluster_size: valid_mcs,
                        linkage: l,
                    })
                },
                None => Err(TriplclustError::Cluster(ClusterError::InvalidArguments)),
            },
        }
    }
}

} // verus!
