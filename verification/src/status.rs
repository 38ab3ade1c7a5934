//! The status of the engine as the web front end sees it.

use vstd::prelude::*;
use crate::status_mgr::StatusMgr;

verus! {

/// The phase the engine is in.
#[derive(Debug)]
pub enum DWStatus {
    Initializing,
    Scanning(DWScanningStatus),
    Comparing(DWComparingStatus),
    Ready,
}

/// Progress of the scan: how many images have data, and the last one.
#[derive(Debug)]
pub struct DWScanningStatus {
    pub count: usize,
    pub last_scanned: Option<String>,
}

/// Progress of the comparison of images.
#[derive(Debug, Clone, Copy, PartialEq, Eq, Structural)]
pub struct DWComparingStatus {
    pub total_images: usize,
    pub image_scanning: usize,
}

impl Default for DWStatus {
    fn default() -> (status: Self)
        ensures
            status is Initializing,
    {
        DWStatus::Initializing
    }
}

impl Default for DWScanningStatus {
    fn default() -> (status: Self)
        ensures
            status.count == 0,
            status.last_scanned is None,
    {
        DWScanningStatus { count: 0, last_scanned: None }
    }
}

impl Default for DWComparingStatus {
    fn default() -> (status: Self)
        ensures
            status == (DWComparingStatus { total_images: 0, image_scanning: 0 }),
    {
        DWComparingStatus { total_images: 0, image_scanning: 0 }
    }
}

/// An optional path as a view.
pub open spec fn path_view(path: Option<String>) -> Option<Seq<char>> {
    match path {
        Some(p) => Some(p@),
        None => None,
    }
}

/// The answer to a request that does nothing.
pub fn api_noop() -> (answer: String)
    ensures
        answer@ == "NoOp"@,
{
    "NoOp".to_owned()
}

/// The status that the front end is shown: comparing once the scan has
/// finished, with all images with data to compare and none compared yet;
/// scanning before, with the number of images with data and the last
/// scanned one.
pub fn api_status(mgr: &StatusMgr) -> (status: DWStatus)
    ensures
        match status {
            DWStatus::Comparing(c) => {
                &&& mgr@.scan_finished
                &&& c.total_images == mgr@.data.dom().len()
                &&& c.image_scanning == 0
            },
            DWStatus::Scanning(s) => {
                &&& !mgr@.scan_finished
                &&& s.count == mgr@.data.dom().len()
                &&& path_view(s.last_scanned) == mgr@.last_scanned
            },
            _ => false,
        },
{
    if mgr.scan_finished() {
        DWStatus::Comparing(DWComparingStatus { total_images: mgr.len(), image_scanning: 0 })
    } else {
        DWStatus::Scanning(DWScanningStatus { count: mgr.len(), last_scanned: mgr.last_scanned() })
    }
}

} // verus!
