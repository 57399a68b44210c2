//! Patches to generated model sources.
use liteparse::yolo::build_support::{patch_generated_model, patch_nano_model};

#[test]
fn webgpu_topk_patch_fails_when_marker_is_missing() {
    let error = patch_generated_model(
        "use burn_store::ModuleSnapshot;\nfn forward() {}\n".to_string(),
        "models/yolo26_doc_layout.onnx",
        true,
    )
    .unwrap_err();

    assert!(error.contains("TopK patch marker"));
}

#[test]
fn helpers_are_inserted_behind_the_import() {
    let patched = patch_generated_model(
        "use burn_store::ModuleSnapshot;\nfn forward() {}\n".to_string(),
        "models/yolo26_doc_layout.onnx",
        false,
    )
    .unwrap();
    assert!(patched.contains("fn yolo_index_dtype()"));
    assert!(patched.ends_with("fn forward() {}\n"));
    let again =
        patch_generated_model(patched.clone(), "models/yolo26_doc_layout.onnx", false).unwrap();
    let count = |text: &str| text.matches("fn yolo_index_dtype()").count();
    assert_eq!(count(&again), count(&patched));
}

#[test]
fn topk_patch_fails_when_its_end_is_missing() {
    let error = patch_generated_model(
        "        let split_tensors = transpose5_out1.split_with_sizes([4, 11].into(), 2);\n"
            .to_string(),
        "models/yolo26_doc_layout.onnx",
        true,
    )
    .unwrap_err();
    assert!(error.contains("end marker"));
}

#[test]
fn a_source_without_markers_keeps_its_text() {
    let source = "fn forward() {}\n".to_string();
    assert_eq!(
        patch_generated_model(source.clone(), "models/yolo26_doc_layout.onnx", false),
        Ok(source.clone())
    );
    assert_eq!(patch_nano_model(source.clone()), source);
}
