use vstd::prelude::*;

verus! {

/// Where a blob that is not part of the executable goes on the device.
pub struct BlobInfo {
    pub start: u32,
    pub size: u32,
    pub checksum: [u8; 20],
    pub filename: String,
}

/// The probe, named by the chip it talks to.
pub struct ProbeInfo {
    pub chip: String,
}

/// The manifest handed to the loader: one entry per loaded blob, by name,
/// in layout order, and the probe.
pub struct BlobInfoFile {
    pub info: Vec<(String, BlobInfo)>,
    pub probe: ProbeInfo,
}

} // verus!
