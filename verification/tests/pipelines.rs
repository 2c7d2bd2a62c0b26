//! Tests for the pipeline engine, the description parsers, the registry
//! and the command-line decision layer.

use stackpack::cli::{
    parse_positive_depth, DepthParseError, PipelinePersistence, PipelinePersistenceArgs,
    PipelineSelection, PipelineSelector,
};
use stackpack::mutator::MutateError;
use stackpack::pipeline::{
    bsc, default_pipeline, get_preset, parse_pipeline_text, CompressionPipeline,
};
use stackpack::registered::{
    get_specific_compressor_from_name, DynMutator, EnumMutator, FfiMutator, Registry,
    RegisteredCompressor,
};

fn drive(p: &CompressionPipeline, data: &[u8]) -> Vec<u8> {
    let mut buf = Vec::new();
    p.drive_mutation(data, &mut buf).unwrap();
    buf
}

fn revert(p: &CompressionPipeline, data: &[u8]) -> Vec<u8> {
    let mut buf = Vec::new();
    p.revert_mutation(data, &mut buf).unwrap();
    buf
}

#[test]
fn empty_pipeline_is_identity() {
    let p = CompressionPipeline::new();
    assert_eq!(drive(&p, b"Hello"), b"Hello");
    assert_eq!(revert(&p, b"Hello"), b"Hello");
}

#[test]
fn default_pipeline_roundtrips_mississippi() {
    let p = default_pipeline();
    let compressed = drive(&p, b"mississippi");
    assert!(compressed.len() <= 22, "compressed to {} bytes", compressed.len());
    assert_eq!(revert(&p, &compressed), b"mississippi");
}

#[test]
fn output_lands_in_the_callers_buffer_for_every_length() {
    // chains of zero to four stages, all driving into the same reused
    // buffer; stale contents must never survive
    let input: &[u8] = b"parity check input: abcabcabc 123123";
    for n in 0..5usize {
        let mut p = CompressionPipeline::new();
        for k in 0..n {
            let stage = if k % 2 == 0 { DynMutator::Mtf } else { DynMutator::Rle };
            p = p.with_algorithm(stage);
        }
        let mut buf = vec![0xAA; 64];
        p.drive_mutation(input, &mut buf).unwrap();
        let mut back = vec![0x55; 3];
        p.revert_mutation(&buf, &mut back).unwrap();
        assert_eq!(back, input);
    }
}

#[test]
fn two_runs_are_byte_identical() {
    let p = default_pipeline();
    let a = drive(&p, b"determinism probe: wheee");
    let b = drive(&p, b"determinism probe: wheee");
    assert_eq!(a, b);
}

#[test]
fn failing_stage_index_is_reported() {
    // reverting runs the last stage first: an empty stream fails inside
    // the arithmetic stage, and its index must be reported
    let p = CompressionPipeline::new()
        .with_algorithm(DynMutator::Mtf)
        .with_algorithm(DynMutator::Arithmetic);
    let mut buf = Vec::new();
    let err = p.revert_mutation(b"", &mut buf).unwrap_err();
    assert_eq!(err.stage, 1);
    assert_eq!(err.error, MutateError::MalformedInput);

    let p2 = CompressionPipeline::new()
        .with_algorithm(DynMutator::Arithmetic)
        .with_algorithm(DynMutator::Mtf);
    let mut buf2 = Vec::new();
    let err2 = p2.revert_mutation(b"", &mut buf2).unwrap_err();
    assert_eq!(err2.stage, 0);
    assert_eq!(err2.error, MutateError::MalformedInput);
}

#[test]
fn plugin_stages_defer_to_the_application_runner() {
    let mut p = CompressionPipeline::new();
    p.push_algorithm(EnumMutator::Ffi(FfiMutator { plugin_index: 0 }));
    let mut buf = Vec::new();
    let err = p.drive_mutation(b"x", &mut buf).unwrap_err();
    assert_eq!(err.stage, 0);
    assert_eq!(err.error, MutateError::ExternalStage);
}

#[test]
fn parse_text_empty_is_empty_pipeline() {
    let reg = Registry::new();
    let p = parse_pipeline_text("", &reg).unwrap();
    assert!(p.pipeline.is_empty());
}

#[test]
fn parse_text_matches_parse_binary() {
    let reg = Registry::new();
    let text = parse_pipeline_text("bwt -> mtf", &reg).unwrap();
    let binary = CompressionPipeline::try_from_bytes(b"bwt,mtf\0", &reg).unwrap();
    assert_eq!(text.pipeline, binary.pipeline);
    assert_eq!(
        text.pipeline,
        vec![
            EnumMutator::Dyn(DynMutator::Bwt),
            EnumMutator::Dyn(DynMutator::Mtf),
        ]
    );
}

#[test]
fn whitespace_does_not_change_the_pipeline() {
    let reg = Registry::new();
    let tight = parse_pipeline_text("bwt->mtf->rle", &reg).unwrap();
    let padded = parse_pipeline_text("  bwt \t ->   mtf->\t rle ", &reg).unwrap();
    assert_eq!(tight.pipeline, padded.pipeline);
}

#[test]
fn unknown_names_fail_the_whole_parse() {
    let reg = Registry::new();
    assert!(parse_pipeline_text("bwt -> nosuch", &reg).is_none());
    assert!(parse_pipeline_text("nosuch", &reg).is_none());
    assert!(CompressionPipeline::try_from_bytes(b"bwt,nosuch\0", &reg).is_none());
    // a binary description without its terminator is rejected
    assert!(CompressionPipeline::try_from_bytes(b"bwt,mtf", &reg).is_none());
    assert!(CompressionPipeline::try_from_bytes(b"", &reg).is_none());
}

#[test]
fn parsed_pipelines_roundtrip() {
    let reg = Registry::new();
    let p = parse_pipeline_text("bwt -> mtf -> arcode", &reg).unwrap();
    let data: &[u8] = b"the quick brown fox jumps over the lazy dog";
    assert_eq!(revert(&p, &drive(&p, data)), data);
}

#[test]
fn registry_lookup_and_append() {
    let mut reg = Registry::new();
    assert!(reg.find("bwt").is_some());
    assert!(reg.find("arcode").is_some());
    assert!(reg.find("rle").is_some());
    assert!(reg.find("nosuch").is_none());
    assert_eq!(reg.len(), 5);
    // a fresh name appends, a duplicate is rejected
    let entry = RegisteredCompressor::new_ffi(FfiMutator { plugin_index: 0 }, "wololooo", None);
    reg.append(entry).unwrap();
    assert_eq!(reg.len(), 6);
    assert!(reg.find("wololooo").is_some());
    let dup = RegisteredCompressor::new_ffi(FfiMutator { plugin_index: 1 }, "bwt", None);
    assert!(reg.append(dup).is_err());
    assert_eq!(reg.len(), 6);
    let by_helper = get_specific_compressor_from_name("mtf", &reg).unwrap();
    assert_eq!(by_helper.name, "mtf");
}

#[test]
fn presets_resolve_before_the_registry() {
    let d = get_preset("default").unwrap();
    assert_eq!(
        d.pipeline,
        vec![
            EnumMutator::Dyn(DynMutator::Bwt),
            EnumMutator::Dyn(DynMutator::Mtf),
            EnumMutator::Dyn(DynMutator::Arithmetic),
        ]
    );
    let b = get_preset("bsc").unwrap();
    assert_eq!(b.pipeline, bsc().pipeline);
    assert!(get_preset("nosuch").is_none());
}

#[test]
fn selector_precedence() {
    let sel = PipelineSelector {
        inline: Some("bwt -> mtf".to_string()),
        from_file: Some("ignored".to_string()),
        preset: Some("ignored".to_string()),
    };
    match sel.selection() {
        PipelineSelection::Inline(s) => assert_eq!(s, "bwt -> mtf"),
        other => panic!("expected the inline selection, got {:?}", other),
    }
    let sel2 = PipelineSelector { inline: None, from_file: None, preset: Some("bsc".to_string()) };
    match sel2.selection() {
        PipelineSelection::Preset(s) => assert_eq!(s, "bsc"),
        other => panic!("expected the preset selection, got {:?}", other),
    }
    let sel3 = PipelineSelector { inline: None, from_file: None, preset: None };
    assert!(matches!(sel3.selection(), PipelineSelection::Default));
}

#[test]
fn persistence_mode_precedence() {
    let embedded = PipelinePersistenceArgs { embed_to_file: true, raw: false };
    assert_eq!(embedded.mode(), PipelinePersistence::Embedded);
    let raw = PipelinePersistenceArgs { embed_to_file: false, raw: true };
    assert_eq!(raw.mode(), PipelinePersistence::Raw);
    let sidecar = PipelinePersistenceArgs { embed_to_file: false, raw: false };
    assert_eq!(sidecar.mode(), PipelinePersistence::Sidecar);
}

#[test]
fn bsc_preset_roundtrips() {
    // without the external block compressor the coder emits stored
    // frames, which decode in the library alone
    let p = get_preset("bsc").unwrap();
    let data: &[u8] = b"stored-frame round trip";
    assert_eq!(revert(&p, &drive(&p, data)), data);
}

#[test]
fn lossless_chain_roundtrips() {
    let p = CompressionPipeline::new()
        .with_algorithm(DynMutator::Rle)
        .with_algorithm(DynMutator::Mtf)
        .with_algorithm(DynMutator::Bsc);
    let data: &[u8] = b"xxxxxyyyyyzzzzz repeated content xxxxxyyyyyzzzzz";
    assert_eq!(revert(&p, &drive(&p, data)), data);
}

#[test]
fn depth_parsing() {
    assert_eq!(parse_positive_depth("3").unwrap(), 3);
    assert_eq!(parse_positive_depth("128").unwrap(), 128);
    assert_eq!(parse_positive_depth("0").unwrap_err(), DepthParseError::Zero);
    assert_eq!(parse_positive_depth("").unwrap_err(), DepthParseError::Malformed);
    assert_eq!(parse_positive_depth("12a").unwrap_err(), DepthParseError::Malformed);
    assert_eq!(
        parse_positive_depth("99999999999999999999999999").unwrap_err(),
        DepthParseError::Malformed
    );
}
