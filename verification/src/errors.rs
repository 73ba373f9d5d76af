use vstd::prelude::*;

verus! {

/// Failures while bringing the engine and the catalog up.
#[derive(Clone, Copy, Debug, PartialEq, Eq, Structural)]
pub enum LoadError {
    /// The label source could not be retrieved.
    CatalogUnavailable,
    /// The label source was retrieved but holds a malformed row or header.
    CatalogParseError,
    /// The model could not be retrieved.
    ModelUnavailable,
    /// The model was retrieved but could not be loaded.
    ModelLoadError,
}

/// Failures while turning an image into a model input tensor.
#[derive(Clone, Copy, Debug, PartialEq, Eq, Structural)]
pub enum PreprocessError {
    /// The pixel data does not match the declared dimensions.
    InvalidImage,
    /// The image has a zero width or height.
    ZeroDimension,
}

/// Failures reported around one inference call.
#[derive(Clone, Copy, Debug, PartialEq, Eq, Structural)]
pub enum InferenceError {
    /// The external runtime failed to execute.
    EngineExecutionFailed,
    /// The score vector's length does not match the catalog's length.
    ShapeMismatch,
}

/// Any failure of one `predict` call, by stage.
#[derive(Clone, Copy, Debug, PartialEq, Eq, Structural)]
pub enum PredictError {
    Load(LoadError),
    Preprocess(PreprocessError),
    Inference(InferenceError),
}

} // verus!
