use vstd::prelude::*;

verus! {

/// Why normalisation statistics are refused.
#[derive(Debug, Clone, Copy, PartialEq, Eq, Structural)]
pub enum CmvnError {
    /// The statistics do not have the declared dimension.
    DimensionMismatch,
    /// The features do not have the dimension of the statistics.
    FeatureDimensionMismatch,
}

/// Checks that mean and inverse-deviation vectors both have `dim` entries.
pub fn check_cmvn_dims(dim: usize, means_len: usize, inv_std_len: usize) -> (r: Result<(), CmvnError>)
    ensures
        r is Ok <==> means_len == dim && inv_std_len == dim,
        r is Err ==> r == Err::<(), CmvnError>(CmvnError::DimensionMismatch),
{
    if means_len != dim || inv_std_len != dim {
        Err(CmvnError::DimensionMismatch)
    } else {
        Ok(())
    }
}

/// Checks that features of `feat_dim` columns can be normalised by
/// statistics of `cmvn_dim` entries.
pub fn check_feature_dim(feat_dim: usize, cmvn_dim: usize) -> (r: Result<(), CmvnError>)
    ensures
        r is Ok <==> feat_dim == cmvn_dim,
        r is Err ==> r == Err::<(), CmvnError>(CmvnError::FeatureDimensionMismatch),
{
    if feat_dim != cmvn_dim {
        Err(CmvnError::FeatureDimensionMismatch)
    } else {
        Ok(())
    }
}

} // verus!
