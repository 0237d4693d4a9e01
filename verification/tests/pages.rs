//! Locating, planning and checking the pages of files that `parquet` itself wrote.

use std::io::{Read, Seek, SeekFrom, Write};
use std::sync::Arc;

use anyhow::Result;
use arrow_array::{Int64Array, RecordBatch, StringArray};
use arrow_schema::{DataType, Field, Schema};
use pagewise::backend::AlignmentRequirements;
use pagewise::codec::{check_decoded_len, GpuCodec, HostDecodeError};
use pagewise::compact::HeaderError;
use pagewise::compressor::{GpuParquetCompressor, PrepareError};
use pagewise::launch::{
    check_statuses, compare_page, launch_call, launch_tables,
    temp_size_call, verify_against_host, LaunchBuffers, LaunchCall, StatusError, TempSizeCall,
    VerifyError,
};
use pagewise::metadata::ByteRange;
use pagewise::nvcomp::NvcompError;
use pagewise::plan::{DecompressPlan, PlanError, RowGroupPlan};
use pagewise::scan::{
    checked_scan_compressed_pages, scan_chunk, scan_compressed_pages, ColumnChunkPages,
    CompressedPage, ScanError,
};
use pagewise::writer::{
    gpu_writer_properties, GPU_DATA_PAGE_ROW_COUNT_LIMIT, GPU_DATA_PAGE_SIZE,
};
use parquet::arrow::ArrowWriter;
use parquet::basic::{Compression, ZstdLevel};
use parquet::file::metadata::{ParquetMetaData, ParquetMetaDataReader};
use parquet::file::properties::{EnabledStatistics, WriterProperties, WriterVersion};
use parquet::file::reader::{FileReader, SerializedFileReader};
use parquet::schema::types::ColumnPath;

fn sample_batch() -> Result<RecordBatch> {
    let schema = Arc::new(Schema::new(vec![
        Field::new("ints", DataType::Int64, false),
        Field::new("strings", DataType::Utf8, false),
    ]));
    let ints = Int64Array::from_iter_values((0..50_000).map(|i| i % 977));
    let strings =
        StringArray::from_iter_values((0..50_000).map(|i| format!("value-{}", i % 1_000)));
    Ok(RecordBatch::try_new(
        schema,
        vec![Arc::new(ints), Arc::new(strings)],
    )?)
}

fn write_with(properties: WriterProperties) -> Result<Vec<u8>> {
    let batch = sample_batch()?;
    let mut writer = ArrowWriter::try_new(Vec::new(), batch.schema(), Some(properties))?;
    writer.write(&batch)?;
    Ok(writer.into_inner()?)
}

fn metadata_of(bytes: &[u8]) -> Result<ParquetMetaData> {
    let mut file = tempfile::tempfile()?;
    file.write_all(bytes)?;
    Ok(ParquetMetaDataReader::new().parse_and_finish(&file)?)
}

fn sample(codec: GpuCodec) -> Result<(Vec<u8>, ParquetMetaData)> {
    let bytes = write_with(gpu_writer_properties(codec))?;
    let metadata = metadata_of(&bytes)?;
    Ok((bytes, metadata))
}

fn alignment(input: usize, output: usize) -> AlignmentRequirements {
    AlignmentRequirements {
        input,
        output,
        temp: 1,
    }
}

fn page(offset: usize, compressed_len: usize, uncompressed_len: usize) -> CompressedPage {
    CompressedPage {
        offset,
        compressed_len,
        uncompressed_len,
    }
}

/// The page bodies must decompress to exactly the bytes `parquet` itself reads.
fn pages_match_parquet_reader(codec: GpuCodec) -> Result<()> {
    let mut file = tempfile::tempfile()?;
    file.write_all(&write_with(gpu_writer_properties(codec))?)?;
    let metadata = ParquetMetaDataReader::new().parse_and_finish(&file)?;
    let mut file_bytes = Vec::new();
    file.seek(SeekFrom::Start(0))?;
    file.read_to_end(&mut file_bytes)?;
    let row_groups = scan_compressed_pages(&file_bytes, &metadata).unwrap();
    let pages = row_groups
        .iter()
        .flatten()
        .flat_map(|chunk| chunk.pages.iter())
        .collect::<Vec<_>>();

    let reader = SerializedFileReader::new(file)?;
    let mut expected = Vec::new();
    for row_group in 0..reader.metadata().num_row_groups() {
        let row_group_reader = reader.get_row_group(row_group)?;
        for column in 0..row_group_reader.num_columns() {
            let mut page_reader = row_group_reader.get_column_page_reader(column)?;
            while let Some(page) = page_reader.get_next_page()? {
                expected.push(page.buffer().to_vec());
            }
        }
    }

    assert_eq!(pages.len(), expected.len(), "page count mismatch");
    assert!(!pages.is_empty(), "expected the sample file to have pages");

    for (page, expected) in pages.iter().zip(expected.iter()) {
        let compressed = &file_bytes[page.offset..page.offset + page.compressed_len];
        assert!(codec.can_decompress_host(compressed, page.uncompressed_len));
        let decompressed = codec
            .decompress_host(compressed, page.uncompressed_len)
            .unwrap();
        assert_eq!(&decompressed, expected);
        assert_ne!(&decompressed[..], compressed);
    }

    Ok(())
}

#[test]
fn scanned_pages_match_parquet_reader_snappy() -> Result<()> {
    pages_match_parquet_reader(GpuCodec::Snappy)
}

#[test]
fn scanned_pages_match_parquet_reader_zstd() -> Result<()> {
    pages_match_parquet_reader(GpuCodec::Zstd)
}

/// Pages must tile their column chunks exactly, with no gap left unaccounted for.
#[test]
fn scanned_pages_cover_every_column_chunk() -> Result<()> {
    let (file_bytes, metadata) = sample(GpuCodec::Snappy)?;
    let row_groups = scan_compressed_pages(&file_bytes, &metadata).unwrap();
    let pages = row_groups
        .iter()
        .flatten()
        .flat_map(|chunk| chunk.pages.iter())
        .collect::<Vec<_>>();

    let compressed: usize = pages.iter().map(|page| page.compressed_len).sum();
    let chunk_total: i64 = metadata
        .row_groups()
        .iter()
        .flat_map(|rg| rg.columns())
        .map(|col| col.compressed_size())
        .sum();

    // The chunk total includes the page headers, so the page bodies must be strictly
    // smaller but within a header's worth per page.
    assert!(compressed < usize::try_from(chunk_total)?);
    assert!(compressed > usize::try_from(chunk_total)? - pages.len() * 256);
    Ok(())
}

#[test]
fn scan_keeps_the_order_of_the_footer() -> Result<()> {
    let (file_bytes, metadata) = sample(GpuCodec::Zstd)?;
    let row_groups = checked_scan_compressed_pages(&file_bytes, &metadata)
        .unwrap()
        .unwrap();
    assert_eq!(row_groups.len(), metadata.num_row_groups());
    for (chunks, listed) in row_groups.iter().zip(metadata.row_groups()) {
        assert_eq!(chunks.len(), listed.num_columns());
        for (chunk, column) in chunks.iter().zip(listed.columns()) {
            let (offset, len) = column.byte_range();
            assert_eq!(chunk.offset, offset);
            assert_eq!(chunk.len as u64, len);
            let mut end = offset as usize;
            for page in &chunk.pages {
                assert!(page.offset > end);
                end = page.offset + page.compressed_len;
            }
            assert_eq!(end as u64, offset + len);
        }
    }
    Ok(())
}

#[test]
fn truncated_file_is_reported() -> Result<()> {
    let (file_bytes, metadata) = sample(GpuCodec::Snappy)?;
    let (offset, len) = metadata.row_group(0).column(0).byte_range();
    let cut = (offset + len - 1) as usize;
    assert_eq!(
        scan_compressed_pages(&file_bytes[..cut], &metadata),
        Err(ScanError::ChunkPastEnd { offset, len })
    );
    Ok(())
}

#[test]
fn version_2_data_pages_are_refused() -> Result<()> {
    let properties = WriterProperties::builder()
        .set_writer_version(WriterVersion::PARQUET_2_0)
        .set_compression(Compression::SNAPPY)
        .build();
    let bytes = write_with(properties)?;
    let metadata = metadata_of(&bytes)?;
    assert_eq!(
        scan_compressed_pages(&bytes, &metadata),
        Err(ScanError::DataPageV2)
    );
    Ok(())
}

#[test]
fn bodies_must_end_with_their_chunk() {
    // A data page whose header says that four bytes follow.
    let header = [0x15, 0x00, 0x15, 0x14, 0x15, 0x08, 0x00];
    let mut file = vec![0xaa, 0xaa];
    file.extend_from_slice(&header);
    file.extend_from_slice(&[1, 2, 3, 4]);
    let whole = ByteRange { offset: 2, len: 11 };
    assert_eq!(
        scan_chunk(&file, whole),
        Ok(ColumnChunkPages {
            offset: 2,
            len: 11,
            pages: vec![page(9, 4, 10)],
        })
    );
    let mut other = file.clone();
    other[9..].copy_from_slice(&[0xff; 4]);
    assert_eq!(scan_chunk(&other, whole), scan_chunk(&file, whole));
    assert_eq!(
        scan_chunk(&file, ByteRange { offset: 2, len: 10 }),
        Err(ScanError::BodyOverrun {
            body: 9,
            compressed_len: 4
        })
    );
    assert_eq!(
        scan_chunk(
            &file,
            ByteRange {
                offset: u64::MAX,
                len: 2
            }
        ),
        Err(ScanError::ChunkPastEnd {
            offset: u64::MAX,
            len: 2
        })
    );
    assert_eq!(
        scan_chunk(&file, ByteRange { offset: 5, len: 0 }),
        Ok(ColumnChunkPages {
            offset: 5,
            len: 0,
            pages: vec![],
        })
    );
    assert_eq!(
        scan_chunk(&file, ByteRange { offset: 2, len: 6 }),
        Err(ScanError::Header(HeaderError::EndsMidField))
    );
    // An index page is passed over.
    file[3] = 0x02;
    assert_eq!(
        scan_chunk(&file, whole),
        Ok(ColumnChunkPages {
            offset: 2,
            len: 11,
            pages: vec![],
        })
    );
}

#[test]
fn codecs_have_names_and_settings() {
    assert_eq!(GpuCodec::default(), GpuCodec::Snappy);
    assert_eq!(GpuCodec::Snappy.name(), "snappy");
    assert_eq!(GpuCodec::Zstd.name(), "zstd");
    assert_eq!(GpuCodec::Snappy.to_parquet(), Compression::SNAPPY);
    assert_eq!(
        GpuCodec::Zstd.to_parquet(),
        Compression::ZSTD(ZstdLevel::default())
    );
    let strong = Compression::ZSTD(ZstdLevel::try_new(9).unwrap());
    assert!(GpuCodec::Zstd.matches(strong));
    assert!(!GpuCodec::Snappy.matches(strong));
    assert!(GpuCodec::Snappy.matches(Compression::SNAPPY));
    assert!(!GpuCodec::Zstd.matches(Compression::UNCOMPRESSED));
}

#[test]
fn host_decoders_hold_pages_to_their_length() {
    let text = b"pages pages pages pages pages pages".to_vec();
    let snappy = snap::raw::Encoder::new().compress_vec(&text).unwrap();
    let zstd = zstd::bulk::compress(&text, 3).unwrap();
    let len = text.len();
    for (codec, compressed) in [(GpuCodec::Snappy, &snappy), (GpuCodec::Zstd, &zstd)] {
        assert_eq!(codec.decompress_host(compressed, len), Ok(text.clone()));
        assert_eq!(
            codec.decompress_host(compressed, len + 1),
            Err(HostDecodeError::LengthMismatch {
                actual: len,
                declared: len + 1
            })
        );
        assert_eq!(
            codec.decompress_host(b"\xff\xff\xff", len),
            Err(HostDecodeError::Rejected)
        );
    }
    assert_eq!(
        GpuCodec::Snappy.decompress_host(&snappy, len - 1),
        Err(HostDecodeError::LengthMismatch {
            actual: len,
            declared: len - 1
        })
    );
    assert_eq!(
        GpuCodec::Zstd.decompress_host(&zstd, len - 1),
        Err(HostDecodeError::Rejected)
    );
}

/// A frame of an old format needs more room than the bytes that it decompresses to.
#[test]
fn zstd_is_given_the_declared_room() {
    let frame = [
        0x27, 0xb5, 0x2f, 0xfd, 0x00, 0x00, 0x00, 0x00, 0x08, 0x81, 0x41, 0x01, 0x54, 0x01, 0x00,
        0x00, 0x01, 0xc0, 0x00, 0x00,
    ];
    assert_eq!(
        GpuCodec::Zstd.decompress_host(&frame, 9),
        Err(HostDecodeError::LengthMismatch {
            actual: 4,
            declared: 9
        })
    );
    assert_eq!(
        GpuCodec::Zstd.decompress_host(&frame, 4),
        Err(HostDecodeError::Rejected)
    );
}

#[test]
fn decoded_lengths_are_checked() {
    assert_eq!(check_decoded_len(Ok(vec![1, 2]), 2), Ok(vec![1, 2]));
    assert_eq!(
        check_decoded_len(Ok(vec![1, 2]), 3),
        Err(HostDecodeError::LengthMismatch {
            actual: 2,
            declared: 3
        })
    );
    assert_eq!(
        check_decoded_len(Err(HostDecodeError::Rejected), 3),
        Err(HostDecodeError::Rejected)
    );
}

#[test]
fn writer_settings_are_those_of_the_device() {
    let column = ColumnPath::new(vec!["any".to_string()]);
    for codec in [GpuCodec::Snappy, GpuCodec::Zstd] {
        let properties = gpu_writer_properties(codec);
        assert_eq!(properties.writer_version(), WriterVersion::PARQUET_1_0);
        assert_eq!(properties.compression(&column), codec.to_parquet());
        assert!(properties.dictionary_enabled(&column));
        assert_eq!(properties.data_page_size_limit(), 1024 * 1024);
        assert_eq!(properties.data_page_row_count_limit(), 1_000_000);
        assert_eq!(
            properties.statistics_enabled(&column),
            EnabledStatistics::Chunk
        );
    }
    assert_eq!(GPU_DATA_PAGE_SIZE, 1_048_576);
    assert_eq!(GPU_DATA_PAGE_ROW_COUNT_LIMIT, 1_000_000);
}

fn two_chunks() -> Vec<ColumnChunkPages> {
    vec![
        ColumnChunkPages {
            offset: 4,
            len: 100,
            pages: vec![page(8, 10, 13), page(24, 20, 100)],
        },
        ColumnChunkPages {
            offset: 104,
            len: 50,
            pages: vec![page(108, 30, 7)],
        },
    ]
}

#[test]
fn plan_lays_pages_out() {
    let plan = RowGroupPlan::build(&two_chunks(), GpuCodec::Snappy, alignment(4, 8)).unwrap();
    let offsets: Vec<usize> = plan.pages.iter().map(|page| page.output_offset).collect();
    assert_eq!(offsets, vec![0, 16, 120]);
    assert_eq!(plan.output_len, 127);
    assert_eq!(plan.max_uncompressed, 100);
    let places: Vec<(usize, usize)> = plan
        .pages
        .iter()
        .map(|page| (page.chunk, page.offset_in_chunk))
        .collect();
    assert_eq!(places, vec![(0, 4), (0, 20), (1, 4)]);
    assert_eq!(plan.chunks.len(), 2);
    assert_eq!(plan.chunks[1].offset, 104);
    assert_eq!(plan.chunks[1].len, 50);
}

#[test]
fn plan_refuses_what_cannot_be_decompressed_in_place() {
    let codec = GpuCodec::Zstd;
    assert_eq!(
        RowGroupPlan::build(&two_chunks(), codec, alignment(8, 8)),
        Err(PlanError::Misaligned {
            page: 8,
            offset_in_chunk: 4,
            alignment: 8,
            codec,
        })
    );
    let mut chunks = two_chunks();
    chunks[1].pages[0].offset = 100;
    assert_eq!(
        RowGroupPlan::build(&chunks, codec, alignment(4, 8)),
        Err(PlanError::PagePrecedesChunk {
            page: 100,
            chunk: 104,
        })
    );
    // Nothing but the start of a chunk is a multiple of zero.
    assert!(matches!(
        RowGroupPlan::build(&two_chunks(), codec, alignment(0, 8)),
        Err(PlanError::Misaligned { alignment: 0, .. })
    ));
}

#[test]
fn plan_is_not_made_where_the_output_cannot_be_addressed() {
    let mut chunks = two_chunks();
    chunks[1].pages[0].uncompressed_len = usize::MAX;
    let codec = GpuCodec::Snappy;
    assert_eq!(
        RowGroupPlan::checked_build(&chunks, codec, alignment(4, 8)),
        None
    );
    assert_eq!(
        RowGroupPlan::checked_build(&two_chunks(), codec, alignment(4, 0)),
        None
    );
    // A page that is refused comes before one that does not fit.
    chunks[0].pages[1].offset = 25;
    assert!(RowGroupPlan::checked_build(&chunks, codec, alignment(4, 8))
        .unwrap()
        .is_err());
}

#[test]
fn file_plan_reports_each_error() {
    let groups = vec![two_chunks(), vec![]];
    let codec = GpuCodec::Snappy;
    let plan = DecompressPlan::build(&groups, codec, Ok(alignment(4, 8))).unwrap();
    assert_eq!(plan.row_groups.len(), 2);
    assert_eq!(plan.row_groups[0].pages.len(), 3);
    assert!(plan.row_groups[1].pages.is_empty());
    assert_eq!(
        DecompressPlan::build(&groups, codec, Err(NvcompError::Status(11))),
        Err(PlanError::AlignmentQuery(NvcompError::Status(11)))
    );
    for output in [0, 3, 24] {
        assert_eq!(
            DecompressPlan::build(&groups, codec, Ok(alignment(4, output))),
            Err(PlanError::OutputAlignment(output))
        );
    }
    assert_eq!(
        DecompressPlan::build(&[vec![], vec![]], codec, Ok(alignment(4, 8))),
        Err(PlanError::NoPages)
    );
    assert!(DecompressPlan::build(&groups, codec, Ok(alignment(8, 8))).is_err());
}

#[test]
fn tables_address_every_page() {
    let plan = RowGroupPlan::build(&two_chunks(), GpuCodec::Snappy, alignment(4, 8)).unwrap();
    let tables = launch_tables(&plan, &[1000, 2000], 5000).unwrap();
    assert_eq!(tables.compressed_ptrs, vec![1004, 1020, 2004]);
    assert_eq!(tables.compressed_sizes, vec![10, 20, 30]);
    assert_eq!(tables.uncompressed_sizes, vec![13, 100, 7]);
    assert_eq!(tables.output_ptrs, vec![5000, 5016, 5120]);
    assert_eq!(launch_tables(&plan, &[1000], 5000), None);
    assert_eq!(launch_tables(&plan, &[1000, u64::MAX], 5000), None);
    assert_eq!(launch_tables(&plan, &[1000, 2000], u64::MAX), None);
}

#[test]
fn launches_carry_the_plan() {
    let plan = RowGroupPlan::build(&two_chunks(), GpuCodec::Snappy, alignment(4, 8)).unwrap();
    match temp_size_call(&plan, GpuCodec::Snappy) {
        TempSizeCall::Snappy(query) => {
            assert_eq!(query.num_chunks, 3);
            assert_eq!(query.max_uncompressed_chunk_bytes, 100);
            assert_eq!(query.max_total_uncompressed_bytes, 127);
        }
        TempSizeCall::Zstd(_) => panic!("wrong codec"),
    }
    match temp_size_call(&plan, GpuCodec::Zstd) {
        TempSizeCall::Zstd(size) => assert_eq!(size.max_total_uncompressed_bytes, 127),
        TempSizeCall::Snappy(_) => panic!("wrong codec"),
    }
    let buffers = LaunchBuffers {
        compressed_ptrs: 1,
        compressed_sizes: 2,
        uncompressed_sizes: 3,
        actual_sizes: 4,
        temp: 5,
        temp_size: 6,
        output_ptrs: 7,
        statuses: 8,
        stream: 9,
    };
    match launch_call(&plan, GpuCodec::Snappy, buffers) {
        LaunchCall::Snappy(launch) => {
            assert_eq!(launch.device_compressed_ptrs, 1);
            assert_eq!(launch.device_compressed_bytes, 2);
            assert_eq!(launch.device_uncompressed_bytes, 3);
            assert_eq!(launch.device_actual_uncompressed_bytes, 4);
            assert_eq!(launch.num_chunks, 3);
            assert_eq!(launch.device_temp_ptr, 5);
            assert_eq!(launch.temp_bytes, 6);
            assert_eq!(launch.device_uncompressed_ptrs, 7);
            assert_eq!(launch.device_statuses, 8);
            assert_eq!(launch.stream, 9);
        }
        LaunchCall::Zstd(..) => panic!("wrong codec"),
    }
    match launch_call(&plan, GpuCodec::Zstd, buffers) {
        LaunchCall::Zstd(on, count) => assert_eq!((on, count), (buffers, 3)),
        LaunchCall::Snappy(_) => panic!("wrong codec"),
    }
}

#[test]
fn statuses_are_checked_in_order() {
    let plan = RowGroupPlan::build(&two_chunks(), GpuCodec::Snappy, alignment(4, 8)).unwrap();
    assert_eq!(check_statuses(&plan, &[13, 100, 7], &[0, 0, 0]), Ok(()));
    assert_eq!(
        check_statuses(&plan, &[13, 99, 7], &[0, 0, 12]),
        Err(StatusError::WrongSize {
            page: 1,
            actual: 99,
            expected: 100
        })
    );
    assert_eq!(
        check_statuses(&plan, &[13, 99, 7], &[0, 12, 0]),
        Err(StatusError::Failed {
            page: 1,
            status: 12
        })
    );
}

#[test]
fn pages_are_compared_byte_for_byte() {
    assert_eq!(compare_page(3, Ok(vec![1, 2]), &[1, 2]), Ok(()));
    assert_eq!(
        compare_page(3, Ok(vec![1, 2]), &[1, 3]),
        Err(VerifyError::Differs { page: 3 })
    );
    assert_eq!(
        compare_page(3, Ok(vec![1, 2]), &[1]),
        Err(VerifyError::Differs { page: 3 })
    );
    assert_eq!(
        compare_page(3, Err(HostDecodeError::Rejected), &[1]),
        Err(VerifyError::Host {
            page: 3,
            error: HostDecodeError::Rejected
        })
    );
}

fn verify_prepared(codec: GpuCodec) -> Result<()> {
    let (file_bytes, metadata) = sample(codec)?;
    let compressor = GpuParquetCompressor::new(codec, true);
    let plan = compressor
        .prepare(&file_bytes, &metadata, Ok(alignment(1, 8)))
        .unwrap()
        .unwrap();
    for group in &plan.row_groups {
        let mut output = vec![0u8; group.output_len];
        for page in &group.pages {
            let start = group.chunks[page.chunk].offset as usize + page.offset_in_chunk;
            let body = codec
                .decompress_host(
                    &file_bytes[start..start + page.compressed_len],
                    page.uncompressed_len,
                )
                .unwrap();
            output[page.output_offset..page.output_offset + body.len()].copy_from_slice(&body);
        }
        assert_eq!(
            verify_against_host(group, &file_bytes, codec, &output),
            Some(Ok(()))
        );
        let last = group.pages.len() - 1;
        let at = group.pages[last].output_offset;
        output[at] ^= 1;
        assert_eq!(
            verify_against_host(group, &file_bytes, codec, &output),
            Some(Err(VerifyError::Differs { page: last }))
        );
        output[at] ^= 1;
        output.pop();
        assert_eq!(
            verify_against_host(group, &file_bytes, codec, &output),
            None
        );
    }
    Ok(())
}

#[test]
fn prepared_snappy_file_is_verified() -> Result<()> {
    verify_prepared(GpuCodec::Snappy)
}

#[test]
fn prepared_zstd_file_is_verified() -> Result<()> {
    verify_prepared(GpuCodec::Zstd)
}

#[test]
fn verification_reports_a_page_that_the_host_rejects() -> Result<()> {
    let codec = GpuCodec::Snappy;
    let (mut file_bytes, metadata) = sample(codec)?;
    let plan = GpuParquetCompressor::new(codec, true)
        .prepare(&file_bytes, &metadata, Ok(alignment(1, 8)))
        .unwrap()
        .unwrap();
    let group = &plan.row_groups[0];
    let output = vec![0u8; group.output_len];
    let start = group.chunks[0].offset as usize + group.pages[0].offset_in_chunk;
    for byte in &mut file_bytes[start..start + 6] {
        *byte = 0xff;
    }
    assert_eq!(
        verify_against_host(group, &file_bytes, codec, &output),
        Some(Err(VerifyError::Host {
            page: 0,
            error: HostDecodeError::Rejected
        }))
    );
    Ok(())
}

#[test]
fn preparing_checks_the_codec_first() -> Result<()> {
    let (file_bytes, metadata) = sample(GpuCodec::Zstd)?;
    let compressor = GpuParquetCompressor::new(GpuCodec::Snappy, false);
    let mismatch = compressor.check_codec(&metadata).unwrap_err();
    assert_eq!((mismatch.row_group, mismatch.column), (0, 0));
    assert_eq!(mismatch.compression, GpuCodec::Zstd.to_parquet());
    assert_eq!(
        compressor.prepare(&[], &metadata, Err(NvcompError::Unavailable)),
        Some(Err(PrepareError::Codec(mismatch)))
    );
    let compressor = GpuParquetCompressor::new(GpuCodec::Zstd, false);
    assert_eq!(compressor.check_codec(&metadata), Ok(()));
    assert!(matches!(
        compressor.prepare(&[], &metadata, Err(NvcompError::Unavailable)),
        Some(Err(PrepareError::Scan(ScanError::ChunkPastEnd { .. })))
    ));
    assert_eq!(
        compressor.prepare(&file_bytes, &metadata, Err(NvcompError::Unavailable)),
        Some(Err(PrepareError::Plan(PlanError::AlignmentQuery(
            NvcompError::Unavailable
        ))))
    );
    Ok(())
}
