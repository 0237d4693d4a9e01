//! Settings for Parquet files whose pages a device is to decompress.

use crate::codec::GpuCodec;
use parquet::basic::Compression;
use parquet::file::properties::{EnabledStatistics, WriterProperties, WriterVersion};
use vstd::prelude::*;

verus! {

/// Target size of a data page written for the device.
///
/// The device decompresses one block per page, so pages must be large enough to amortize
/// the setup of a block, yet numerous enough to fill the device.
pub const GPU_DATA_PAGE_SIZE: usize = 1024 * 1024;

/// Row cap per data page.
///
/// The cap that `parquet` sets on its own gives pages far below [`GPU_DATA_PAGE_SIZE`] for
/// narrow columns, and leaves the device underfed.
pub const GPU_DATA_PAGE_ROW_COUNT_LIMIT: usize = 1_000_000;

/// The format versions that `parquet` writes, with their variants in sight.
#[verifier::external_type_specification]
pub struct ExWriterVersion(WriterVersion);

/// The statistics that `parquet` writes, with their variants in sight.
#[verifier::external_type_specification]
pub struct ExEnabledStatistics(EnabledStatistics);

/// All settings of the Parquet writer.
#[verifier::external_type_specification]
#[verifier::external_body]
pub struct ExWriterProperties(WriterProperties);

/// The writer settings that matter for the device. They hold for every column.
#[derive(Clone, Copy, Debug, PartialEq, Eq)]
pub struct WriterSettings {
    /// The format version.
    pub version: WriterVersion,
    /// The codec of the page bodies.
    pub compression: Compression,
    /// Whether columns are dictionary encoded.
    pub dictionary: bool,
    /// The size, in bytes, at which a data page is closed.
    pub data_page_size_limit: usize,
    /// The number of rows at which a data page is closed.
    pub data_page_row_count_limit: usize,
    /// Which statistics are written.
    pub statistics: EnabledStatistics,
}

/// The settings that a collection of writer properties holds for every column.
pub uninterp spec fn writer_settings(properties: WriterProperties) -> WriterSettings;

/// Calls `WriterProperties::builder`, sets each setting with the method of its name, and
/// calls `WriterPropertiesBuilder::build`: the properties hold what was set.
#[verifier::external_body]
fn build_writer_properties(settings: WriterSettings) -> (properties: WriterProperties)
    ensures
        writer_settings(properties) == settings,
{
    WriterProperties::builder()
        .set_writer_version(settings.version)
        .set_compression(settings.compression)
        .set_dictionary_enabled(settings.dictionary)
        .set_data_page_size_limit(settings.data_page_size_limit)
        .set_data_page_row_count_limit(settings.data_page_row_count_limit)
        .set_statistics_enabled(settings.statistics)
        .build()
}

/// Writer properties tuned for decompression on the device.
///
/// Version 1 data pages compress the entire page body, which is the unit that the device
/// decompresses. Statistics per page would only inflate the page headers.
pub fn gpu_writer_properties(codec: GpuCodec) -> (properties: WriterProperties)
    ensures
        writer_settings(properties).version is PARQUET_1_0,
        codec.writes_with(writer_settings(properties).compression),
        writer_settings(properties).dictionary,
        writer_settings(properties).data_page_size_limit == GPU_DATA_PAGE_SIZE,
        writer_settings(properties).data_page_row_count_limit == GPU_DATA_PAGE_ROW_COUNT_LIMIT,
        writer_settings(properties).statistics is Chunk,
{
    build_writer_properties(
        WriterSettings {
            version: WriterVersion::PARQUET_1_0,
            compression: codec.to_parquet(),
            dictionary: true,
            data_page_size_limit: GPU_DATA_PAGE_SIZE,
            data_page_row_count_limit: GPU_DATA_PAGE_ROW_COUNT_LIMIT,
            statistics: EnabledStatistics::Chunk,
        },
    )
}

} // verus!
