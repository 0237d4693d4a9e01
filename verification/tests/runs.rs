//! The order of a measurement, and the calls into nvcomp.

use pagewise::backend::{AlignmentRequirements, DecompressBackend};
use pagewise::codec::GpuCodec;
use pagewise::compressor::{CompressError, Format, GpuParquetCompressor, GpuVortexCompressor};
use pagewise::launch::{decompress_alignments, AlignmentCall, StatusError, VerifyError};
use pagewise::nvcomp::{check_status, NvcompAlignmentRequirements, NvcompError, Reply};
use pagewise::plan::{is_power_of_two, DecompressPlan, RowGroupPlan};
use pagewise::run::{
    CheckFailed, FieldMismatch, ParquetAction, ParquetEvent, ParquetRun, VortexAction, VortexEvent,
    VortexRun,
};
use pagewise::snappy::{
    decompress_alignment_requirements, decompress_async, decompress_async_with_opts,
    get_decompress_temp_size, get_decompress_temp_size_with_opts, SnappyDecompressOpts,
    MAX_COMPRESSED_CHUNK_SIZE,
};

fn script(row_groups: usize, verify: bool) -> (Vec<ParquetAction>, u128) {
    let mut run = ParquetRun::start(row_groups, verify);
    let mut actions = Vec::new();
    while run.action != ParquetAction::Finish {
        actions.push(run.action);
        let event = match run.action {
            ParquetAction::Decompress(_) => ParquetEvent::Decompressed { took: 5 },
            ParquetAction::Verify(_) => ParquetEvent::Verified(Ok(())),
            _ => ParquetEvent::Checked(Ok(())),
        };
        run = run.on(event).unwrap();
    }
    (actions, run.elapsed)
}

#[test]
fn parquet_run_decompresses_then_checks() {
    let (actions, elapsed) = script(2, false);
    assert_eq!(
        actions,
        vec![
            ParquetAction::Decompress(0),
            ParquetAction::Decompress(1),
            ParquetAction::CheckStatuses(0),
            ParquetAction::CheckStatuses(1),
        ]
    );
    assert_eq!(elapsed, 10);
}

#[test]
fn parquet_run_verifies_each_row_group_at_once() {
    let (actions, elapsed) = script(2, true);
    assert_eq!(
        actions,
        vec![
            ParquetAction::Decompress(0),
            ParquetAction::Verify(0),
            ParquetAction::Decompress(1),
            ParquetAction::Verify(1),
            ParquetAction::CheckStatuses(0),
            ParquetAction::CheckStatuses(1),
        ]
    );
    // Verification is not measured.
    assert_eq!(elapsed, 10);
    assert_eq!(script(0, true), (vec![], 0));
}

#[test]
fn parquet_run_reports_no_time_where_a_check_fails() {
    let took = ParquetEvent::Decompressed { took: 5 };
    let failed = StatusError::Failed { page: 3, status: 7 };
    let run = ParquetRun::start(2, false);
    let run = run.on(took).unwrap().on(took).unwrap();
    let run = run.on(ParquetEvent::Checked(Ok(()))).unwrap();
    assert_eq!(
        run.on(ParquetEvent::Checked(Err(failed))),
        Err(CheckFailed::Status {
            row_group: 1,
            error: failed
        })
    );
    let differs = VerifyError::Differs { page: 2 };
    let run = ParquetRun::start(2, true).on(took).unwrap();
    assert_eq!(
        run.on(ParquetEvent::Verified(Err(differs))),
        Err(CheckFailed::Verification {
            row_group: 0,
            difference: differs
        })
    );
}

#[test]
fn parquet_compressor_starts_a_run() {
    let compressor = GpuParquetCompressor::new(GpuCodec::Zstd, true);
    assert_eq!(compressor.codec, GpuCodec::Zstd);
    assert_eq!(compressor.format(), Format::Parquet);
    let empty = RowGroupPlan {
        chunks: vec![],
        pages: vec![],
        output_len: 0,
        max_uncompressed: 0,
    };
    let run = compressor.start(&DecompressPlan {
        row_groups: vec![empty],
    });
    assert_eq!(run.action, ParquetAction::Decompress(0));
    assert!(run.verify);
}

#[test]
fn vortex_run_decodes_field_by_field() {
    let compressor = GpuVortexCompressor::new(false);
    assert_eq!(compressor.format(), Format::OnDiskVortex);
    assert_eq!(
        compressor.compress(),
        Err(CompressError::OnlyDecompression)
    );
    let run = compressor.start();
    assert_eq!(run.action, VortexAction::NextBatch);
    let run = run.on(VortexEvent::Batch(2)).unwrap();
    assert_eq!(run.action, VortexAction::Decode(0));
    let run = run.on(VortexEvent::Decoded).unwrap();
    assert_eq!(run.action, VortexAction::Decode(1));
    let run = run.on(VortexEvent::Decoded).unwrap();
    assert_eq!(run.action, VortexAction::NextBatch);
    let run = run.on(VortexEvent::Batch(0)).unwrap();
    assert_eq!(run.action, VortexAction::NextBatch);
    let run = run.on(VortexEvent::EndOfStream).unwrap();
    assert_eq!(run.action, VortexAction::Synchronize);
    let run = run.on(VortexEvent::Synchronized).unwrap();
    assert_eq!(run.action, VortexAction::Finish);
}

#[test]
fn vortex_run_stops_at_a_mismatch() {
    let run = VortexRun::start(true).on(VortexEvent::Batch(2)).unwrap();
    let run = run.on(VortexEvent::Decoded).unwrap();
    assert_eq!(run.action, VortexAction::Compare(0));
    let run = run.on(VortexEvent::Compared(true)).unwrap();
    assert_eq!(run.action, VortexAction::Decode(1));
    let run = run.on(VortexEvent::Decoded).unwrap();
    assert_eq!(
        run.on(VortexEvent::Compared(false)),
        Err(FieldMismatch { field: 1 })
    );
}

#[test]
fn backends_have_numbers() {
    assert_eq!(DecompressBackend::default(), DecompressBackend::Default);
    assert_eq!(DecompressBackend::Default.to_nvcomp(), 0);
    assert_eq!(DecompressBackend::Hardware.to_nvcomp(), 1);
    assert_eq!(DecompressBackend::Cuda.to_nvcomp(), 2);
}

#[test]
fn options_are_laid_out_for_nvcomp() {
    let defaults = SnappyDecompressOpts::default();
    assert_eq!(defaults.backend, DecompressBackend::Default);
    assert!(!defaults.sort_before_hw_decompress);
    let raw = SnappyDecompressOpts {
        backend: DecompressBackend::Hardware,
        sort_before_hw_decompress: true,
    }
    .to_nvcomp();
    assert_eq!(raw.backend, 1);
    assert_eq!(raw.sort_before_hw_decompress, 1);
    assert_eq!(raw.reserved, [0; 56]);
    assert_eq!(defaults.to_nvcomp().sort_before_hw_decompress, 0);
    assert_eq!(MAX_COMPRESSED_CHUNK_SIZE, (1 << 31) - 1);
}

#[test]
fn temp_size_is_asked_for() {
    let query = get_decompress_temp_size(3, 100, 200);
    assert_eq!(query.num_chunks, 3);
    assert_eq!(query.max_uncompressed_chunk_bytes, 100);
    assert_eq!(query.max_total_uncompressed_bytes, 200);
    assert_eq!(query.opts.backend, 0);
    assert_eq!(
        query.finish(Reply::Returned {
            status: 0,
            value: 77
        }),
        Ok(77)
    );
    assert_eq!(
        query.finish(Reply::Returned {
            status: 10,
            value: 77
        }),
        Err(NvcompError::Status(10))
    );
    assert_eq!(
        query.finish(Reply::Unavailable),
        Err(NvcompError::Unavailable)
    );
    let opts = SnappyDecompressOpts {
        backend: DecompressBackend::Cuda,
        sort_before_hw_decompress: false,
    };
    let query = get_decompress_temp_size_with_opts(1, 2, 3, opts);
    assert_eq!(query.opts.backend, 2);
}

#[test]
fn alignments_are_asked_for() {
    let query = decompress_alignment_requirements(SnappyDecompressOpts::default());
    let reported = NvcompAlignmentRequirements {
        input: 4,
        output: 8,
        temp: 16,
    };
    assert_eq!(
        query.finish(Reply::Returned {
            status: 0,
            value: reported
        }),
        Ok(AlignmentRequirements {
            input: 4,
            output: 8,
            temp: 16
        })
    );
    assert_eq!(
        query.finish(Reply::Returned {
            status: 1,
            value: reported
        }),
        Err(NvcompError::Status(1))
    );
    assert!(matches!(
        decompress_alignments(GpuCodec::Snappy),
        AlignmentCall::Snappy(_)
    ));
    assert!(matches!(
        decompress_alignments(GpuCodec::Zstd),
        AlignmentCall::Zstd
    ));
}

#[test]
fn launches_are_described() {
    let launch = decompress_async(1, 2, 3, 4, 5, 6, 7, 8, 9, 10);
    assert_eq!(launch.num_chunks, 5);
    assert_eq!(launch.device_temp_ptr, 6);
    assert_eq!(launch.temp_bytes, 7);
    assert_eq!(launch.device_uncompressed_ptrs, 8);
    assert_eq!(launch.device_statuses, 9);
    assert_eq!(launch.stream, 10);
    assert_eq!(launch.opts.backend, 0);
    assert_eq!(
        launch.finish(Reply::Returned {
            status: 0,
            value: ()
        }),
        Ok(())
    );
    assert_eq!(check_status(0), Ok(()));
    assert_eq!(check_status(3), Err(NvcompError::Status(3)));
    let opts = SnappyDecompressOpts {
        backend: DecompressBackend::Hardware,
        sort_before_hw_decompress: true,
    };
    let launch = decompress_async_with_opts(1, 2, 3, 4, 5, 6, 7, 8, 9, 10, opts);
    assert_eq!(launch.opts.backend, 1);
    assert_eq!(launch.device_compressed_ptrs, 1);
}

#[test]
fn powers_of_two_are_told_apart() {
    let powers: Vec<usize> = (0..20).filter(|n| is_power_of_two(*n)).collect();
    assert_eq!(powers, vec![1, 2, 4, 8, 16]);
    assert!(!is_power_of_two(usize::MAX));
}
