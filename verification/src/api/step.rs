//! What is done to have something ready: read it where it is kept, or make it.

use vstd::prelude::*;

use crate::text::same;

verus! {

/// How a recording is made ready.
#[derive(Clone, Copy, PartialEq, Eq, Structural, Debug)]
pub enum LoadStep {
    /// It is ready, with the settings that are asked for.
    Ready,
    /// Its index is on disk.
    ReadIndex,
    /// Its files are to be indexed.
    BuildIndex,
    /// There is no such recording.
    NoDataset,
    /// It has no files.
    NoFiles,
}

/// The digests of the settings a recording was loaded with: of the navigation,
/// and of the mosaic.
pub struct Settings {
    pub nav: String,
    pub mosaic: String,
}

/// How a recording is made ready.
pub open spec fn load_by(
    loaded: Option<Settings>,
    want: Settings,
    indexed: bool,
    files: Option<usize>,
) -> LoadStep {
    if loaded matches Some(l) && l.nav@ == want.nav@ && l.mosaic@ == want.mosaic@ {
        LoadStep::Ready
    } else if indexed {
        LoadStep::ReadIndex
    } else {
        match files {
            None => LoadStep::NoDataset,
            Some(n) => if n == 0 {
                LoadStep::NoFiles
            } else {
                LoadStep::BuildIndex
            },
        }
    }
}

/// Decide how a recording is made ready, given what it is loaded with, whether
/// its index is on disk, and how many files it has where there is such a
/// recording.
pub fn load(
    loaded: &Option<Settings>,
    want: &Settings,
    indexed: bool,
    files: Option<usize>,
) -> (s: LoadStep)
    ensures
        s == load_by(*loaded, *want, indexed, files),
{
    let ready = match loaded {
        Some(l) => same(l.nav.as_str(), want.nav.as_str()) && same(
            l.mosaic.as_str(),
            want.mosaic.as_str(),
        ),
        None => false,
    };
    if ready {
        LoadStep::Ready
    } else if indexed {
        LoadStep::ReadIndex
    } else {
        match files {
            None => LoadStep::NoDataset,
            Some(n) => if n == 0 {
                LoadStep::NoFiles
            } else {
                LoadStep::BuildIndex
            },
        }
    }
}

/// How many mosaics of a channel are kept on disk.
pub const MOSAIC_KEEP: usize = 4;

/// How a mosaic is made ready.
#[derive(Clone, Copy, PartialEq, Eq, Structural, Debug)]
pub enum MosaicStep {
    /// The one in memory was painted with these settings.
    Ready,
    /// So was the one on disk.
    Kept,
    /// It is to be painted.
    Paint,
}

/// Decide how a mosaic is made ready, given whether the one in memory and the
/// one on disk were painted with the settings that are asked for.
pub fn mosaic(ready: bool, kept: bool) -> (s: MosaicStep)
    ensures
        s == (if ready {
            MosaicStep::Ready
        } else if kept {
            MosaicStep::Kept
        } else {
            MosaicStep::Paint
        }),
{
    if ready {
        MosaicStep::Ready
    } else if kept {
        MosaicStep::Kept
    } else {
        MosaicStep::Paint
    }
}

/// How an imported raster is made ready.
#[derive(Clone, Copy, PartialEq, Eq, Structural, Debug)]
pub enum RasterStep {
    /// It is in memory.
    Ready,
    /// The project has no such layer.
    NoLayer,
    /// Its grid is on disk.
    Kept,
    /// Its grid is to be made: there is none, or the one there is cannot be
    /// read.
    Resample,
}

/// Decide how an imported raster is made ready, given whether it is in memory,
/// whether the project has the layer, and whether its grid is on disk and can
/// be read.
pub fn raster(ready: bool, known: bool, kept: bool) -> (s: RasterStep)
    ensures
        s == (if ready {
            RasterStep::Ready
        } else if !known {
            RasterStep::NoLayer
        } else if kept {
            RasterStep::Kept
        } else {
            RasterStep::Resample
        }),
{
    if ready {
        RasterStep::Ready
    } else if !known {
        RasterStep::NoLayer
    } else if kept {
        RasterStep::Kept
    } else {
        RasterStep::Resample
    }
}

/// A dataset that is loaded with other settings is read again, one that is not to be
/// found is not built, and an index is read wherever there is one.
pub proof fn law_loading(loaded: Option<Settings>, want: Settings, indexed: bool, files: Option<usize>)
    ensures
        load_by(loaded, want, indexed, files) is Ready <==> loaded is Some && (loaded->0).nav@
            == want.nav@ && (loaded->0).mosaic@ == want.mosaic@,
        loaded is None && indexed ==> load_by(loaded, want, indexed, files) is ReadIndex,
        loaded is None && !indexed ==> (load_by(loaded, want, indexed, files) is BuildIndex
            <==> files is Some && files->0 > 0),
        loaded is None && !indexed ==> (load_by(loaded, want, indexed, files) is NoDataset
            <==> files is None),
{
}

} // verus!
