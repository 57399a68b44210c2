//! Patches for the generated model source.
use crate::pattern::{find_from, push_range, replace_all, replace_first, splice};
use crate::text::{chars_of, string_of};
use vstd::prelude::*;
use vstd::string::*;

verus! {

/// The start of the header line of generated sources.
pub const HEADER_START: &'static str = "// Generated from ONNX ";

/// The import after which helpers are inserted.
pub const HELPER_MARKER: &'static str = "use burn_store::ModuleSnapshot;\n";

/// The signature by which inserted helpers are recognised.
pub const HELPER_SIGNATURE: &'static str = "fn yolo_index_dtype()";

/// The helpers up to their first signature.
pub const HELPERS_HEAD: &'static str = r#"
#[cfg(all(
    feature = "backend-ndarray",
    not(any(
        feature = "backend-metal",
        feature = "backend-vulkan",
        feature = "backend-webgpu"
    ))
))]
/// Return the integer dtype required by ndarray tensor indexing.
"#;

/// The helpers after their first signature.
pub const HELPERS_TAIL: &'static str = r#" -> burn::tensor::DType {
    burn::tensor::DType::I64
}

#[cfg(any(feature = "backend-metal", feature = "backend-vulkan", feature = "backend-webgpu"))]
/// Return the integer dtype required by WGPU tensor indexing.
fn yolo_index_dtype() -> burn::tensor::DType {
    burn::tensor::DType::I32
}

#[cfg(all(
    feature = "backend-ndarray",
    not(any(
        feature = "backend-metal",
        feature = "backend-vulkan",
        feature = "backend-webgpu"
    ))
))]
/// Create the class-count tensor using the ndarray integer dtype.
fn class_count_tensor<B: Backend>(device: &B::Device) -> Tensor<B, 1, Int> {
    Tensor::<B, 1, Int>::from_data(
        burn::tensor::TensorData::from([11i64]),
        (device, burn::tensor::DType::I64),
    )
}

#[cfg(any(feature = "backend-metal", feature = "backend-vulkan", feature = "backend-webgpu"))]
/// Create the class-count tensor using the WGPU integer dtype.
fn class_count_tensor<B: Backend>(device: &B::Device) -> Tensor<B, 1, Int> {
    Tensor::<B, 1, Int>::from_data(
        burn::tensor::TensorData::from([11i32]),
        (device, burn::tensor::DType::I32),
    )
}
"#;

/// The helpers of the nano model up to their first signature.
pub const NANO_HELPERS_HEAD: &'static str = r#"
#[cfg(feature = "backend-ndarray")]
"#;

/// The helpers of the nano model after their first signature.
pub const NANO_HELPERS_TAIL: &'static str = r#" -> burn::tensor::DType {
    burn::tensor::DType::I64
}

#[cfg(any(feature = "backend-metal", feature = "backend-vulkan"))]
fn yolo_index_dtype() -> burn::tensor::DType {
    burn::tensor::DType::I32
}

#[cfg(feature = "backend-ndarray")]
fn class_count_tensor<B: Backend>(device: &B::Device) -> Tensor<B, 1, Int> {
    Tensor::<B, 1, Int>::from_data(
        burn::tensor::TensorData::from([11i64]),
        (device, burn::tensor::DType::I64),
    )
}

#[cfg(any(feature = "backend-metal", feature = "backend-vulkan"))]
fn class_count_tensor<B: Backend>(device: &B::Device) -> Tensor<B, 1, Int> {
    Tensor::<B, 1, Int>::from_data(
        burn::tensor::TensorData::from([11i32]),
        (device, burn::tensor::DType::I32),
    )
}
"#;

/// Where the header names the nano model.
pub const NANO_MODEL_PATH: &'static str = "../../models/yolo26n_doc_layout.onnx";

/// Where the class count of the model is set.
pub const CLASS_COUNT_MARKER: &'static str = "let constant227:";

/// The start of the closure that sets the class count.
pub const CLASS_COUNT_START: &'static str = "move |device, _require_grad|";

/// What follows the closure that sets the class count.
pub const CLASS_COUNT_END: &'static str = "\n            device.clone(),";

/// The closure that takes the place of the one that sets the class count.
pub const CLASS_COUNT_CLOSURE: &'static str = "move |device, _require_grad| class_count_tensor::<B>(device),";

/// Where the generated code starts to pick the best rows.
pub const TOPK_START: &'static str = "        let split_tensors = transpose5_out1.split_with_sizes([4, 11].into(), 2);";

/// What follows the generated code that picks the best rows.
pub const TOPK_END: &'static str = "\n    }\n}\n\n#[derive(Module, Debug)]";

/// What comes before the generated code that picks the best rows.
pub const TOPK_HEAD: &'static str = r#"        #[cfg(all(target_family = "wasm", feature = "backend-webgpu"))]
        {
            // CONTEXT: Burn WebGPU cannot execute generated TopK on wasm yet.
            transpose5_out1
        }
        #[cfg(not(all(target_family = "wasm", feature = "backend-webgpu")))]
        {
"#;

/// What comes after the generated code that picks the best rows.
pub const TOPK_TAIL: &'static str = "        }\n";

/// The error where the start of that code is missing.
pub const TOPK_START_MISSING: &'static str = "Burn WebGPU TopK patch marker was not found in generated model";

/// The error where the end of that code is missing.
pub const TOPK_END_MISSING: &'static str = "Burn WebGPU TopK patch end marker was not found in generated model";

/// The source with a header that names the model, if it has a generated header.
pub open spec fn with_header(source: Seq<char>, path: Seq<char>) -> Seq<char> {
    match crate::pattern::position(source, seq!['\n'], 0) {
        Some(end) if crate::pattern::matches_at(source, HEADER_START@, 0) => HEADER_START@ + seq!['"']
            + path + "\" by burn-onnx"@ + source.skip(end),
        _ => source,
    }
}

/// The source with the imports and casts that the generated code needs.
pub open spec fn with_imports(source: Seq<char>) -> Seq<char> {
    let s = crate::pattern::replaced(
        source,
        "use burn::nn::PaddingConfig2d;"@,
        "use burn_nn::PaddingConfig2d;"@,
    );
    let s = crate::pattern::replaced(
        s,
        "use burn::nn::conv::Conv2d;"@,
        "use burn_nn::conv::Conv2d;"@,
    );
    let s = crate::pattern::replaced(
        s,
        "use burn::nn::conv::Conv2dConfig;"@,
        "use burn_nn::conv::Conv2dConfig;"@,
    );
    let s = crate::pattern::replaced(
        s,
        "use burn::nn::pool::MaxPool2d;"@,
        "use burn_nn::pool::MaxPool2d;"@,
    );
    let s = crate::pattern::replaced(
        s,
        "use burn::nn::pool::MaxPool2dConfig;"@,
        "use burn_nn::pool::MaxPool2dConfig;"@,
    );
    let s = crate::pattern::replaced(s, "burn::nn::interpolate::"@, "burn_nn::interpolate::"@);
    crate::pattern::replaced(
        s,
        "__topk_indices_raw.cast(burn::tensor::DType::I64)"@,
        "__topk_indices_raw.cast(yolo_index_dtype())"@,
    )
}

/// The source with the helpers after the marker, if they are not there yet.
pub open spec fn with_helpers(source: Seq<char>, head: Seq<char>, tail: Seq<char>) -> Seq<char> {
    if crate::pattern::occurs(source, HELPER_SIGNATURE@) {
        source
    } else {
        crate::pattern::replaced_first(
            source,
            HELPER_MARKER@,
            HELPER_MARKER@ + head + HELPER_SIGNATURE@ + tail,
        )
    }
}

/// The source with the class count set by a helper.
pub open spec fn with_class_count(source: Seq<char>) -> Seq<char> {
    match crate::pattern::position(source, CLASS_COUNT_MARKER@, 0) {
        Some(at) => match crate::pattern::position(source, CLASS_COUNT_START@, at) {
            Some(start) => match crate::pattern::position(source, CLASS_COUNT_END@, start) {
                Some(end) => crate::pattern::spliced(source, start, end, CLASS_COUNT_CLOSURE@),
                None => source,
            },
            None => source,
        },
        None => source,
    }
}

/// The source that returns raw rows on browser builds, if it has the code that picks the best
/// rows.
pub open spec fn with_raw_rows(source: Seq<char>) -> Option<Seq<char>> {
    match crate::pattern::position(source, TOPK_START@, 0) {
        Some(start) => match crate::pattern::position(source, TOPK_END@, start) {
            Some(end) => Some(
                crate::pattern::spliced(
                    source,
                    start,
                    end,
                    TOPK_HEAD@ + source.subrange(start, end) + TOPK_TAIL@,
                ),
            ),
            None => None,
        },
        None => None,
    }
}

/// The generated source with the patches that every build needs.
pub open spec fn with_common_patches(source: Seq<char>, path: Seq<char>) -> Seq<char> {
    with_class_count(
        with_helpers(with_imports(with_header(source, path)), HELPERS_HEAD@, HELPERS_TAIL@),
    )
}

/// Inserting the helpers again changes nothing.
pub proof fn helpers_are_inserted_once(source: Seq<char>, head: Seq<char>, tail: Seq<char>)
    ensures
        with_helpers(with_helpers(source, head, tail), head, tail) == with_helpers(
            source,
            head,
            tail,
        ),
{
    let once = with_helpers(source, head, tail);
    if !crate::pattern::occurs(source, HELPER_SIGNATURE@) {
        crate::pattern::search_finds_the_first(source, HELPER_MARKER@, 0);
        match crate::pattern::position(source, HELPER_MARKER@, 0) {
            Some(i) => {
                let k = i + HELPER_MARKER@.len() + head.len();
                assert(once.subrange(k, k + HELPER_SIGNATURE@.len()) =~= HELPER_SIGNATURE@);
                assert(crate::pattern::matches_at(once, HELPER_SIGNATURE@, k));
                crate::pattern::search_finds_the_first(once, HELPER_SIGNATURE@, 0);
            },
            None => {},
        }
    }
}

/// Replace the absolute generated header with a stable selected-model header.
fn replace_generated_header(source: Vec<char>, onnx_path: &str) -> (r: Vec<char>)
    ensures
        r@ == with_header(source@, onnx_path@),
{
    let mut line_break: Vec<char> = Vec::new();
    line_break.push('\n');
    assert(line_break@ =~= seq!['\n']);
    match find_from(&source, &line_break, 0) {
        None => source,
        Some(line_end) => {
            let start: Vec<char> = chars_of(HEADER_START);
            proof {
                crate::pattern::search_finds_the_first(source@, start@, 0);
            }
            let found: Option<usize> = find_from(&source, &start, 0);
            let headed: bool = match found {
                Some(i) => i == 0,
                None => false,
            };
            if !headed {
                return source;
            }
            let mut r: Vec<char> = start;
            r.push('"');
            let path: Vec<char> = chars_of(onnx_path);
            push_range(&mut r, &path, 0, path.len());
            let end: Vec<char> = chars_of("\" by burn-onnx");
            push_range(&mut r, &end, 0, end.len());
            push_range(&mut r, &source, line_end, source.len());
            assert(r@ =~= with_header(source@, onnx_path@));
            r
        },
    }
}

/// The text with every occurrence of a pattern replaced.
fn replace_text(source: Vec<char>, from: &str, to: &str) -> (r: Vec<char>)
    requires
        from@.len() > 0,
    ensures
        r@ == crate::pattern::replaced(source@, from@, to@),
{
    replace_all(&source, &chars_of(from), &chars_of(to))
}

/// Replaces the imports and casts that the generated code needs.
fn replace_imports(source: Vec<char>) -> (r: Vec<char>)
    ensures
        r@ == with_imports(source@),
{
    proof {
        reveal_strlit("use burn::nn::PaddingConfig2d;");
        reveal_strlit("use burn::nn::conv::Conv2d;");
        reveal_strlit("use burn::nn::conv::Conv2dConfig;");
        reveal_strlit("use burn::nn::pool::MaxPool2d;");
        reveal_strlit("use burn::nn::pool::MaxPool2dConfig;");
        reveal_strlit("burn::nn::interpolate::");
        reveal_strlit("__topk_indices_raw.cast(burn::tensor::DType::I64)");
    }
    let s: Vec<char> = replace_text(
        source,
        "use burn::nn::PaddingConfig2d;",
        "use burn_nn::PaddingConfig2d;",
    );
    let s: Vec<char> = replace_text(
        s,
        "use burn::nn::conv::Conv2d;",
        "use burn_nn::conv::Conv2d;",
    );
    let s: Vec<char> = replace_text(
        s,
        "use burn::nn::conv::Conv2dConfig;",
        "use burn_nn::conv::Conv2dConfig;",
    );
    let s: Vec<char> = replace_text(
        s,
        "use burn::nn::pool::MaxPool2d;",
        "use burn_nn::pool::MaxPool2d;",
    );
    let s: Vec<char> = replace_text(
        s,
        "use burn::nn::pool::MaxPool2dConfig;",
        "use burn_nn::pool::MaxPool2dConfig;",
    );
    let s: Vec<char> = replace_text(s, "burn::nn::interpolate::", "burn_nn::interpolate::");
    replace_text(
        s,
        "__topk_indices_raw.cast(burn::tensor::DType::I64)",
        "__topk_indices_raw.cast(yolo_index_dtype())",
    )
}

/// Inject backend-specific helpers used by generated tensor indexing code.
fn insert_index_helpers(source: Vec<char>, head: &str, tail: &str) -> (r: Vec<char>)
    ensures
        r@ == with_helpers(source@, head@, tail@),
{
    let signature: Vec<char> = chars_of(HELPER_SIGNATURE);
    if find_from(&source, &signature, 0).is_some() {
        return source;
    }
    let marker: Vec<char> = chars_of(HELPER_MARKER);
    let mut text: Vec<char> = chars_of(HELPER_MARKER);
    let first: Vec<char> = chars_of(head);
    push_range(&mut text, &first, 0, first.len());
    push_range(&mut text, &signature, 0, signature.len());
    let second: Vec<char> = chars_of(tail);
    push_range(&mut text, &second, 0, second.len());
    assert(text@ =~= HELPER_MARKER@ + head@ + HELPER_SIGNATURE@ + tail@);
    replace_first(source, &marker, &text)
}

/// Replace a generated class-count closure with a backend-specific tensor.
fn replace_class_count_initializer(source: Vec<char>) -> (r: Vec<char>)
    ensures
        r@ == with_class_count(source@),
{
    match find_from(&source, &chars_of(CLASS_COUNT_MARKER), 0) {
        None => source,
        Some(at) => match find_from(&source, &chars_of(CLASS_COUNT_START), at) {
            None => source,
            Some(start) => match find_from(&source, &chars_of(CLASS_COUNT_END), start) {
                None => source,
                Some(end) => splice(&source, start, end, &chars_of(CLASS_COUNT_CLOSURE)),
            },
        },
    }
}

/// Return raw candidates before Burn's TopK nodes on browser WebGPU builds.
fn replace_wasm_webgpu_topk_postprocess(source: Vec<char>, require_webgpu_topk_patch: bool) -> (r:
    Result<Vec<char>, String>)
    ensures
        match r {
            Ok(s) => match with_raw_rows(source@) {
                Some(patched) => s@ == patched,
                None => !require_webgpu_topk_patch && s@ == source@,
            },
            Err(error) => require_webgpu_topk_patch && with_raw_rows(source@) is None && error@ == (
            if crate::pattern::occurs(source@, TOPK_START@) {
                TOPK_END_MISSING@
            } else {
                TOPK_START_MISSING@
            }),
        },
{
    match find_from(&source, &chars_of(TOPK_START), 0) {
        None => {
            if require_webgpu_topk_patch {
                return Err(TOPK_START_MISSING.to_owned());
            }
            Ok(source)
        },
        Some(start) => match find_from(&source, &chars_of(TOPK_END), start) {
            None => {
                if require_webgpu_topk_patch {
                    return Err(TOPK_END_MISSING.to_owned());
                }
                Ok(source)
            },
            Some(end) => {
                let mut text: Vec<char> = chars_of(TOPK_HEAD);
                push_range(&mut text, &source, start, end);
                let tail: Vec<char> = chars_of(TOPK_TAIL);
                push_range(&mut text, &tail, 0, tail.len());
                assert(text@ =~= TOPK_HEAD@ + source@.subrange(start as int, end as int)
                    + TOPK_TAIL@);
                Ok(splice(&source, start, end, &text))
            },
        },
    }
}

/// Apply deterministic source patches to the Burn-generated model module.
pub fn patch_generated_model(source: String, onnx_path: &str, require_webgpu_topk_patch: bool) -> (r:
    Result<String, String>)
    ensures
        match r {
            Ok(s) => match with_raw_rows(with_common_patches(source@, onnx_path@)) {
                Some(patched) => s@ == patched,
                None => !require_webgpu_topk_patch && s@ == with_common_patches(
                    source@,
                    onnx_path@,
                ),
            },
            Err(error) => require_webgpu_topk_patch && with_raw_rows(
                with_common_patches(source@, onnx_path@),
            ) is None && error@ == (if crate::pattern::occurs(
                with_common_patches(source@, onnx_path@),
                TOPK_START@,
            ) {
                TOPK_END_MISSING@
            } else {
                TOPK_START_MISSING@
            }),
        },
{
    let s: Vec<char> = chars_of(source.as_str());
    let s: Vec<char> = replace_generated_header(s, onnx_path);
    let s: Vec<char> = replace_imports(s);
    let s: Vec<char> = insert_index_helpers(s, HELPERS_HEAD, HELPERS_TAIL);
    let s: Vec<char> = replace_class_count_initializer(s);
    match replace_wasm_webgpu_topk_postprocess(s, require_webgpu_topk_patch) {
        Ok(patched) => Ok(string_of(&patched)),
        Err(error) => Err(error),
    }
}

/// Apply deterministic source patches to the module generated from the nano model.
pub fn patch_nano_model(source: String) -> (r: String)
    ensures
        r@ == with_class_count(
            with_helpers(
                with_imports(with_header(source@, NANO_MODEL_PATH@)),
                NANO_HELPERS_HEAD@,
                NANO_HELPERS_TAIL@,
            ),
        ),
{
    let s: Vec<char> = chars_of(source.as_str());
    let s: Vec<char> = replace_generated_header(s, NANO_MODEL_PATH);
    let s: Vec<char> = replace_imports(s);
    let s: Vec<char> = insert_index_helpers(s, NANO_HELPERS_HEAD, NANO_HELPERS_TAIL);
    let s: Vec<char> = replace_class_count_initializer(s);
    string_of(&s)
}

/// The code that picks the best rows stays, between two pieces that are put around it: what comes
/// before it, the code itself from its first line on, and what comes after it are as they were.
pub proof fn raw_rows_keep_the_generated_code(source: Seq<char>)
    ensures
        with_raw_rows(source) matches Some(r) ==> exists|before: Seq<char>, code: Seq<char>, after: Seq<
            char,
        >|
            {
                &&& source == #[trigger] (before + code + after)
                &&& r == before + TOPK_HEAD@ + code + TOPK_TAIL@ + after
                &&& crate::pattern::matches_at(source, TOPK_START@, before.len() as int)
                &&& TOPK_END@.is_prefix_of(after)
            },
        with_raw_rows(source) is None ==> forall|i: int, j: int|
            0 <= i <= j ==> !(#[trigger] crate::pattern::matches_at(source, TOPK_START@, i)
                && #[trigger] crate::pattern::matches_at(source, TOPK_END@, j)) || exists|h: int|
                0 <= h < i && #[trigger] crate::pattern::matches_at(source, TOPK_START@, h),
{
    crate::pattern::search_finds_the_first(source, TOPK_START@, 0);
    if let Some(start) = crate::pattern::position(source, TOPK_START@, 0) {
        crate::pattern::search_finds_the_first(source, TOPK_END@, start);
        match crate::pattern::position(source, TOPK_END@, start) {
            Some(end) => {
                let r = with_raw_rows(source)->0;
                let (before, code, after) = (
                    source.take(start),
                    source.subrange(start, end),
                    source.skip(end),
                );
                assert(source =~= before + code + after);
                assert(r =~= before + TOPK_HEAD@ + code + TOPK_TAIL@ + after);
                assert(TOPK_END@ =~= after.take(TOPK_END@.len() as int)) by {
                    assert(source.subrange(end, end + TOPK_END@.len()) =~= after.take(
                        TOPK_END@.len() as int,
                    ));
                }
                assert(TOPK_END@.is_prefix_of(after));
            },
            None => {
                assert forall|i: int, j: int| 0 <= i <= j implies !(#[trigger] crate::pattern::matches_at(
                    source,
                    TOPK_START@,
                    i,
                ) && #[trigger] crate::pattern::matches_at(source, TOPK_END@, j)) || exists|h: int|
                    0 <= h < i && #[trigger] crate::pattern::matches_at(source, TOPK_START@, h) by {
                    if i > start {
                        assert(crate::pattern::matches_at(source, TOPK_START@, start));
                    } else if i < start {
                        assert(!crate::pattern::matches_at(source, TOPK_START@, i));
                    } else {
                        assert(!crate::pattern::matches_at(source, TOPK_END@, j));
                    }
                }
            },
        }
    }
}

/// A generated header is replaced by one that names the model; all that follows the first line is
/// kept. A source without such a header is kept whole.
pub proof fn headers_are_replaced_alone(source: Seq<char>, path: Seq<char>, n: int)
    requires
        0 <= n < source.len(),
        source[n] == '\n',
        forall|i: int| 0 <= i < n ==> #[trigger] source[i] != '\n',
    ensures
        with_header(source, path) == if HEADER_START@.is_prefix_of(source) {
            HEADER_START@ + "\""@ + path + "\" by burn-onnx"@ + source.skip(n)
        } else {
            source
        },
{
    let end = seq!['\n'];
    crate::pattern::search_finds_the_first(source, end, 0);
    assert(source.subrange(n, n + 1) =~= end);
    assert(crate::pattern::matches_at(source, end, n));
    let k = crate::pattern::position(source, end, 0)->0;
    assert(source.subrange(k, k + 1)[0] == source[k]);
    assert(k == n);
    reveal_strlit("\"");
    assert("\""@ =~= seq!['"']);
    let m = HEADER_START@.len() as int;
    assert(crate::pattern::matches_at(source, HEADER_START@, 0) <==> HEADER_START@.is_prefix_of(
        source,
    )) by {
        if m <= source.len() {
            assert(source.subrange(0, m) =~= source.take(m));
            if HEADER_START@.is_prefix_of(source) {
                assert(source.subrange(0, m) =~= HEADER_START@);
            }
        }
    }
}

} // verus!
