//! The request set and the numeric settings of the tool, with their checks.
use vstd::prelude::*;
use vstd::string::StringSliceAdditionalSpecFns;
use crate::index::{LshParams, KEY_BITS};
use crate::search::SearchParams;

verus! {

/// A configuration value out of range.
#[derive(Debug, Clone, Copy, PartialEq, Eq, Structural)]
pub enum ConfigError {
    ConfigInvalid,
}

/// How search results are printed.
#[derive(Debug, Clone, Copy, PartialEq, Eq, Structural)]
pub enum OutputFormat {
    Json,
    Table,
}

/// Show all feature points of an image.
#[derive(Debug)]
pub struct ShowKeypoints {
    /// Path to an image
    pub image: String,
    /// Optional output image
    pub output: Option<String>,
}

/// Show the matches between two images.
#[derive(Debug)]
pub struct ShowMatches {
    /// Path to image A
    pub image1: String,
    /// Path to image B
    pub image2: String,
    /// Optional output image
    pub output: Option<String>,
}

/// Add images to the database.
#[derive(Debug)]
pub struct AddImages {
    /// Path to an image or folder
    pub path: String,
    /// Scan images with these suffixes
    pub suffix: String,
}

/// Search the database for an image.
#[derive(Debug)]
pub struct SearchImage {
    /// Path to the image to search
    pub image: String,
}

/// One request, one variant per command.
#[derive(Debug)]
pub enum SubCommand {
    ShowKeypoints(ShowKeypoints),
    ShowMatches(ShowMatches),
    AddImages(AddImages),
    SearchImage(SearchImage),
}

/// The format that the text with bytes `b` names, if any.
pub open spec fn format_named(b: Seq<u8>) -> Option<OutputFormat> {
    if b == seq![106u8, 115u8, 111u8, 110u8] {
        Some(OutputFormat::Json)
    } else if b == seq![116u8, 97u8, 98u8, 108u8, 101u8] {
        Some(OutputFormat::Table)
    } else {
        None
    }
}

impl OutputFormat {
    /// `json` or `table`; anything else is invalid.
    pub fn parse(s: &str) -> (r: Result<OutputFormat, ConfigError>)
        ensures
            r is Ok <==> format_named(s.spec_bytes()) is Some,
            r matches Ok(f) ==> format_named(s.spec_bytes()) == Some(f),
            r matches Err(e) ==> e == ConfigError::ConfigInvalid,
    {
        let b = s.as_bytes();
        if b.len() == 4 && b[0] == 106u8 && b[1] == 115u8 && b[2] == 111u8 && b[3] == 110u8 {
            assert(b@ =~= seq![106u8, 115u8, 111u8, 110u8]);
            Ok(OutputFormat::Json)
        } else if b.len() == 5 && b[0] == 116u8 && b[1] == 97u8 && b[2] == 98u8 && b[3] == 108u8 && b[4] == 101u8 {
            assert(b@ =~= seq![116u8, 97u8, 98u8, 108u8, 101u8]);
            Ok(OutputFormat::Table)
        } else {
            proof {
                if b@ == seq![106u8, 115u8, 111u8, 110u8] {
                    assert(b@[0] == 106u8);
                }
                if b@ == seq![116u8, 97u8, 98u8, 108u8, 101u8] {
                    assert(b@[0] == 116u8);
                }
            }
            Err(ConfigError::ConfigInvalid)
        }
    }
}

impl std::str::FromStr for OutputFormat {
    type Err = ConfigError;

    fn from_str(s: &str) -> Result<Self, Self::Err> {
        OutputFormat::parse(s)
    }
}

/// The numeric settings of extraction, indexing and search. The scale
/// factor of the image pyramid is a float and is checked where it is read.
#[derive(Debug, Clone, Copy, PartialEq, Eq, Structural)]
pub struct Settings {
    pub orb_nfeatures: u32,
    pub orb_nlevels: u32,
    pub orb_ini_th_fast: u32,
    pub orb_min_th_fast: u32,
    pub flann_table_number: i32,
    pub flann_key_size: i32,
    pub flann_probe_level: i32,
    pub flann_checks: i32,
    pub batch_size: usize,
    pub output_count: usize,
    pub output_format: OutputFormat,
    pub knn_k: i32,
}

impl Settings {
    /// Every setting is in range.
    pub open spec fn valid(&self) -> bool {
        &&& self.orb_nfeatures >= 1
        &&& self.orb_nlevels >= 1
        &&& self.orb_min_th_fast <= self.orb_ini_th_fast
        &&& self.flann_table_number >= 0
        &&& 0 <= self.flann_key_size <= KEY_BITS
        &&& self.flann_probe_level >= 0
        &&& self.flann_checks >= 0
        &&& self.batch_size >= 1
        &&& self.knn_k >= 0
    }

    /// The search parameters these settings give, or `ConfigInvalid` when a
    /// setting is out of range.
    pub fn search_params(&self) -> (r: Result<SearchParams, ConfigError>)
        ensures
            r is Ok <==> self.valid(),
            r matches Err(e) ==> e == ConfigError::ConfigInvalid,
            r matches Ok(p) ==> p == (SearchParams {
                lsh: LshParams {
                    table_count: self.flann_table_number as usize,
                    key_size: self.flann_key_size as usize,
                    probe_level: self.flann_probe_level as usize,
                    checks: self.flann_checks as usize,
                },
                batch_size: self.batch_size,
                knn_k: self.knn_k as usize,
                output_count: self.output_count,
            }),
    {
        if self.orb_nfeatures < 1 || self.orb_nlevels < 1 || self.orb_min_th_fast > self.orb_ini_th_fast {
            return Err(ConfigError::ConfigInvalid);
        }
        if self.flann_table_number < 0 || self.flann_key_size < 0 || self.flann_key_size > KEY_BITS as i32
            || self.flann_probe_level < 0 || self.flann_checks < 0 {
            return Err(ConfigError::ConfigInvalid);
        }
        if self.batch_size < 1 || self.knn_k < 0 {
            return Err(ConfigError::ConfigInvalid);
        }
        Ok(SearchParams {
            lsh: LshParams {
                table_count: self.flann_table_number as usize,
                key_size: self.flann_key_size as usize,
                probe_level: self.flann_probe_level as usize,
                checks: self.flann_checks as usize,
            },
            batch_size: self.batch_size,
            knn_k: self.knn_k as usize,
            output_count: self.output_count,
        })
    }
}

} // verus!
