//! Error types of the pipeline stages, and their human-readable messages.
use crate::text::{decimal_text, push_decimal};
use vstd::prelude::*;

verus! {

/// Errors raised while smoothing a point cloud.
#[derive(Debug, Clone)]
pub enum SmoothingError {
    InvalidMaxNeighbors(i32),
    EmptyPointCloud,
}

/// Errors raised while forming triplets.
#[derive(Debug, Clone)]
pub enum TripletError {
    InvalidNeighborhoodSize(i32),
    InvalidMaxCandidates(i32),
    EmptyPointCloud,
    PointCloudNotSorted,
}

/// Errors raised while clustering triplets.
#[derive(Debug, Clone)]
pub enum ClusterError {
    InvalidMinClusterSize(i32),
    InvalidLinkage(String),
    InvalidArguments,
    EmptyTriplets,
}

/// Any error of the pipeline, tagged with the stage that raised it.
#[derive(Debug, Clone)]
pub enum TriplclustError {
    Smoothing(SmoothingError),
    Triplet(TripletError),
    Cluster(ClusterError),
}

/// Message of a [`SmoothingError`].
pub open spec fn smoothing_message(e: SmoothingError) -> Seq<char> {
    match e {
        SmoothingError::InvalidMaxNeighbors(v) => "Invalid max neighbors parameter: "@
            + decimal_text(v as int) + ", value must be > 0"@,
        SmoothingError::EmptyPointCloud => "Smoothing operation resulted in an empty point cloud"@,
    }
}

/// Message of a [`TripletError`].
pub open spec fn triplet_message(e: TripletError) -> Seq<char> {
    match e {
        TripletError::InvalidNeighborhoodSize(v) => "Invalid neighborhood size parameter: "@
            + decimal_text(v as int) + ", value must be > 0"@,
        TripletError::InvalidMaxCandidates(v) => "Invalid max candidates parameter: "@
            + decimal_text(v as int) + ", value must be > 0"@,
        TripletError::EmptyPointCloud => "Empty point cloud was given to triplet operation"@,
        TripletError::PointCloudNotSorted => "Point cloud given to triplet operation was not sorted in Z"@,
    }
}

/// Message of a [`ClusterError`].
pub open spec fn cluster_message(e: ClusterError) -> Seq<char> {
    match e {
        ClusterError::InvalidMinClusterSize(v) => "Invalid min cluster size parameter: "@
            + decimal_text(v as int) + ", value must be > 0"@,
        ClusterError::InvalidLinkage(s) => "Invalid linkage parameter: "@ + s@
            + ", value must be one of [single, complete, average, median]"@,
        ClusterError::InvalidArguments => "Both dnn and scale were None when constructing cluster parameters; at least one must be given"@,
        ClusterError::EmptyTriplets => "An empty triplet array was given to the clustering operation"@,
    }
}

/// Message of a [`TriplclustError`]: the stage, then the stage's own message.
pub open spec fn triplclust_message(e: TriplclustError) -> Seq<char> {
    match e {
        TriplclustError::Smoothing(inner) => "Triplclust encoutered an error during smoothing: "@
            + smoothing_message(inner),
        TriplclustError::Triplet(inner) => "Triplclust encoutered an error during evaluting triplets: "@
            + triplet_message(inner),
        TriplclustError::Cluster(inner) => "Triplclust encoutered an error during clustering: "@
            + cluster_message(inner),
    }
}

impl SmoothingError {
    /// Appends the message of this error to `out`.
    pub fn write_message(&self, out: &mut String)
        ensures
            final(out)@ == old(out)@ + smoothing_message(*self),
    {
        match self {
            SmoothingError::InvalidMaxNeighbors(v) => {
                out.append("Invalid max neighbors parameter: ");
                push_decimal(out, *v);
                out.append(", value must be > 0");
            },
            SmoothingError::EmptyPointCloud => {
                out.append("Smoothing operation resulted in an empty point cloud");
            },
        }
    }

    /// The human-readable message of this error.
    pub fn message(&self) -> (s: String)
        ensures
            s@ == smoothing_message(*self),
    {
        let mut s = String::new();
        self.write_message(&mut s);
        s
    }
}

impl TripletError {
    /// Appends the message of this error to `out`.
    pub fn write_message(&self, out: &mut String)
        ensures
            final(out)@ == old(out)@ + triplet_message(*self),
    {
        match self {
            TripletError::InvalidNeighborhoodSize(v) => {
                out.append("Invalid neighborhood size parameter: ");
                push_decimal(out, *v);
                out.append(", value must be > 0");
            },
            TripletError::InvalidMaxCandidates(v) => {
                out.append("Invalid max candidates parameter: ");
                push_decimal(out, *v);
                out.append(", value must be > 0");
            },
            TripletError::EmptyPointCloud => {
                out.append("Empty point cloud was given to triplet operation");
            },
            TripletError::PointCloudNotSorted => {
                out.append("Point cloud given to triplet operation was not sorted in Z");
            },
        }
    }

    /// The human-readable message of this error.
    pub fn message(&self) -> (s: String)
        ensures
            s@ == triplet_message(*self),
    {
        let mut s = String::new();
        self.write_message(&mut s);
        s
    }
}

impl ClusterError {
    /// Appends the message of this error to `out`.
    pub fn write_message(&self, out: &mut String)
        ensures
            final(out)@ == old(out)@ + cluster_message(*self),
    {
        match self {
            ClusterError::InvalidMinClusterSize(v) => {
                out.append("Invalid min cluster size parameter: ");
                push_decimal(out, *v);
                out.append(", value must be > 0");
            },
            ClusterError::InvalidLinkage(value) => {
                out.append("Invalid linkage parameter: ");
                out.append(value.as_str());
                out.append(", value must be one of [single, complete, average, median]");
            },
            ClusterError::InvalidArguments => {
                out.append(
                    "Both dnn and scale were None when constructing cluster parameters; at least one must be given",
                );
            },
            ClusterError::EmptyTriplets => {
                out.append("An empty triplet array was given to the clustering operation");
            },
        }
    }

    /// The human-readable message of this error.
    pub fn message(&self) -> (s: String)
        ensures
            s@ == cluster_message(*self),
    {
        let mut s = String::new();
        self.write_message(&mut s);
        s
    }
}

impl TriplclustError {
    /// Appends the message of this error to `out`.
    pub fn write_message(&self, out: &mut String)
        ensures
            final(out)@ == old(out)@ + triplclust_message(*self),
    {
        match self {
            TriplclustError::Smoothing(inner) => {
                out.append("Triplclust encoutered an error during smoothing: ");
                inner.write_message(out);
            },
            TriplclustError::Triplet(inner) => {
                out.append("Triplclust encoutered an error during evaluting triplets: ");
                inner.write_message(out);
            },
            TriplclustError::Cluster(inner) => {
                out.append("Triplclust encoutered an error during clustering: ");
                inner.write_message(out);
            },
        }
    }

    /// The human-readable message of this error.
    pub fn message(&self) -> (s: String)
        ensures
            s@ == triplclust_message(*self),
    {
        let mut s = String::new();
        self.write_message(&mut s);
        s
    }
}

impl From<SmoothingError> for TriplclustError {
    fn from(value: SmoothingError) -> (r: Self) {
        TriplclustError::Smoothing(value)
    }
}

impl vstd::std_specs::convert::FromSpecImpl<SmoothingError> for TriplclustError {
    open spec fn obeys_from_spec() -> bool {
        true
    }

    open spec fn from_spec(v: SmoothingError) -> Self {
        TriplclustError::Smoothing(v)
    }
}

impl From<TripletError> for TriplclustError {
    fn from(value: TripletError) -> (r: Self) {
        TriplclustError::Triplet(value)
    }
}

impl vstd::std_specs::convert::FromSpecImpl<TripletError> for TriplclustError {
    open spec fn obeys_from_spec() -> bool {
        true
    }

    open spec fn from_spec(v: TripletError) -> Self {
        TriplclustError::Triplet(v)
    }
}

impl From<ClusterError> for TriplclustError {
    fn from(value: ClusterError) -> (r: Self) {
        TriplclustError::Cluster(value)
    }
}

impl vstd::std_specs::convert::FromSpecImpl<ClusterError> for TriplclustError {
    open spec fn obeys_from_spec() -> bool {
        true
    }

    open spec fn from_spec(v: ClusterError) -> Self {
        TriplclustError::Cluster(v)
    }
}

} // verus!
