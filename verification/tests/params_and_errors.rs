use triplclust_rs::error::{ClusterError, SmoothingError, TriplclustError, TripletError};
use triplclust_rs::params::{validate_i32_to_nonzero_usize, ClusterParams, Linkage, TripletParams};
use triplclust_rs::pyerror::PyTriplclustError;

#[test]
fn nonzero_counts_reject_zero_and_negatives() {
    assert_eq!(validate_i32_to_nonzero_usize(-3), None);
    assert_eq!(validate_i32_to_nonzero_usize(0), None);
    assert_eq!(validate_i32_to_nonzero_usize(1), Some(1));
    assert_eq!(validate_i32_to_nonzero_usize(19), Some(19));
    assert_eq!(validate_i32_to_nonzero_usize(i32::MAX), Some(i32::MAX as usize));
}

#[test]
fn linkage_names_are_read() {
    assert_eq!(Linkage::parse("single").unwrap(), Linkage::Single);
    assert_eq!(Linkage::parse("complete").unwrap(), Linkage::Complete);
    assert_eq!(Linkage::parse("average").unwrap(), Linkage::Average);
    assert_eq!(Linkage::parse("median").unwrap(), Linkage::Median);
}

#[test]
fn unknown_linkage_is_rejected_with_its_name() {
    match Linkage::parse("ward") {
        Err(TriplclustError::Cluster(ClusterError::InvalidLinkage(name))) => assert_eq!(name, "ward"),
        _ => panic!("ward must be rejected"),
    }
    match Linkage::parse("Single") {
        Err(TriplclustError::Cluster(ClusterError::InvalidLinkage(name))) => assert_eq!(name, "Single"),
        _ => panic!("names are case sensitive"),
    }
}

#[test]
fn triplet_params_from_fullargs() {
    let p = TripletParams::from_fullargs(19, 2, 0.03).expect("valid parameters");
    assert_eq!(p.neighborhood_size, 19);
    assert_eq!(p.max_candidates, 2);
    assert_eq!(p.error_cutoff, 0.03);
    match TripletParams::from_fullargs(0, 2, 0.03) {
        Err(TriplclustError::Triplet(TripletError::InvalidNeighborhoodSize(0))) => {}
        _ => panic!("zero neighborhood must be rejected"),
    }
    match TripletParams::from_fullargs(-4, -1, 0.03) {
        Err(TriplclustError::Triplet(TripletError::InvalidNeighborhoodSize(-4))) => {}
        _ => panic!("the neighborhood size is checked first"),
    }
    match TripletParams::from_fullargs(19, -1, 0.03) {
        Err(TriplclustError::Triplet(TripletError::InvalidMaxCandidates(-1))) => {}
        _ => panic!("negative candidates must be rejected"),
    }
}

#[test]
fn cluster_params_from_fullargs() {
    let p = ClusterParams::from_fullargs(Some(1.5), Some(9.0), None, 5, "single").unwrap();
    assert_eq!(p.scale, 1.5);
    assert_eq!(p.min_cluster_size, 5);
    assert_eq!(p.linkage, Linkage::Single);
    assert_eq!(p.cluster_distance_threshold, None);
    let p = ClusterParams::from_fullargs(None, Some(9.0), Some(2.5), 3, "median").unwrap();
    assert_eq!(p.scale, 9.0);
    assert_eq!(p.cluster_distance_threshold, Some(2.5));
    assert_eq!(p.linkage, Linkage::Median);
    match ClusterParams::<f64>::from_fullargs(None, None, None, 5, "single") {
        Err(TriplclustError::Cluster(ClusterError::InvalidArguments)) => {}
        _ => panic!("one scale is needed"),
    }
    match ClusterParams::from_fullargs(Some(1.0), None, None, 0, "nonsense") {
        Err(TriplclustError::Cluster(ClusterError::InvalidMinClusterSize(0))) => {}
        _ => panic!("the minimum cluster size is checked first"),
    }
    match ClusterParams::<f64>::from_fullargs(None, None, None, 5, "nonsense") {
        Err(TriplclustError::Cluster(ClusterError::InvalidArguments)) => {}
        _ => panic!("the scales are checked before the linkage"),
    }
    match ClusterParams::from_fullargs(None, Some(1.0), None, 5, "nonsense") {
        Err(TriplclustError::Cluster(ClusterError::InvalidLinkage(name))) => assert_eq!(name, "nonsense"),
        _ => panic!("bad linkage"),
    }
}

#[test]
fn cluster_params_default_with_scale() {
    let p = ClusterParams::default_with_scale(0.75, "average").unwrap();
    assert_eq!(p.scale, 0.75);
    assert_eq!(p.min_cluster_size, 5);
    assert_eq!(p.cluster_distance_threshold, None);
    assert_eq!(p.linkage, Linkage::Average);
    assert!(ClusterParams::default_with_scale(0.75, "").is_err());
}

#[test]
fn error_messages() {
    assert_eq!(
        SmoothingError::InvalidMaxNeighbors(-12).message(),
        "Invalid max neighbors parameter: -12, value must be > 0"
    );
    assert_eq!(
        SmoothingError::EmptyPointCloud.message(),
        "Smoothing operation resulted in an empty point cloud"
    );
    assert_eq!(
        TripletError::InvalidNeighborhoodSize(0).message(),
        "Invalid neighborhood size parameter: 0, value must be > 0"
    );
    assert_eq!(
        TripletError::InvalidMaxCandidates(-2147483648).message(),
        "Invalid max candidates parameter: -2147483648, value must be > 0"
    );
    assert_eq!(
        TripletError::EmptyPointCloud.message(),
        "Empty point cloud was given to triplet operation"
    );
    assert_eq!(
        TripletError::PointCloudNotSorted.message(),
        "Point cloud given to triplet operation was not sorted in Z"
    );
    assert_eq!(
        ClusterError::InvalidMinClusterSize(2147483647).message(),
        "Invalid min cluster size parameter: 2147483647, value must be > 0"
    );
    assert_eq!(
        ClusterError::InvalidLinkage("ward".to_string()).message(),
        "Invalid linkage parameter: ward, value must be one of [single, complete, average, median]"
    );
    assert_eq!(
        ClusterError::InvalidArguments.message(),
        "Both dnn and scale were None when constructing cluster parameters; at least one must be given"
    );
    assert_eq!(
        ClusterError::EmptyTriplets.message(),
        "An empty triplet array was given to the clustering operation"
    );
}

#[test]
fn pipeline_error_messages_name_the_stage() {
    let e: TriplclustError = SmoothingError::EmptyPointCloud.into();
    assert_eq!(
        e.message(),
        "Triplclust encoutered an error during smoothing: Smoothing operation resulted in an empty point cloud"
    );
    let e: TriplclustError = TripletError::InvalidMaxCandidates(-7).into();
    assert_eq!(
        e.message(),
        "Triplclust encoutered an error during evaluting triplets: Invalid max candidates parameter: -7, value must be > 0"
    );
    let e: TriplclustError = ClusterError::EmptyTriplets.into();
    assert_eq!(
        e.message(),
        "Triplclust encoutered an error during clustering: An empty triplet array was given to the clustering operation"
    );
    let py: PyTriplclustError = e.into();
    assert_eq!(
        py.message(),
        "Triplclust encoutered an error during clustering: An empty triplet array was given to the clustering operation"
    );
}
